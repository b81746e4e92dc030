//! Fixed-width grouping keys.
use vstd::prelude::*;
use vstd::string::StringSliceAdditionalSpecFns;

verus! {

/// Number of bytes held by a [`FixedKey`].
pub const KEY_LEN: usize = 8;

/// The bytes of the key built from `s`: its first `KEY_LEN` bytes, with
/// zeros after the end of a shorter input.
pub open spec fn key_bytes_of(s: Seq<u8>) -> Seq<u8> {
    Seq::new(KEY_LEN as nat, |i: int| if i < s.len() { s[i] } else { 0u8 })
}

/// An inline key of exactly `KEY_LEN` bytes. Inputs longer than that which
/// share their first `KEY_LEN` bytes give equal keys.
#[derive(Clone, Copy, Debug, Eq, Hash)]
pub struct FixedKey {
    pub bytes: [u8; 8],
}

impl PartialEq for FixedKey {
    fn eq(&self, o: &FixedKey) -> (r: bool) {
        let mut i: usize = 0;
        while i < KEY_LEN
            invariant
                i <= KEY_LEN,
                self.bytes@.len() == KEY_LEN,
                o.bytes@.len() == KEY_LEN,
                forall|j: int| 0 <= j < i ==> self.bytes@[j] == o.bytes@[j],
            decreases KEY_LEN - i,
        {
            if self.bytes[i] != o.bytes[i] {
                return false;
            }
            i = i + 1;
        }
        assert(self.bytes@ =~= o.bytes@);
        true
    }
}

impl vstd::std_specs::cmp::PartialEqSpecImpl for FixedKey {
    open spec fn obeys_eq_spec() -> bool {
        true
    }

    open spec fn eq_spec(&self, o: &FixedKey) -> bool {
        self.bytes@ == o.bytes@
    }
}

impl FixedKey {
    /// Builds the key of `s`: its leading bytes, truncated or zero-padded.
    pub fn from_bytes(s: &[u8]) -> (k: FixedKey)
        ensures
            k.bytes@ == key_bytes_of(s@),
    {
        let mut bytes: [u8; 8] = [0u8; 8];
        let n: usize = if s.len() < KEY_LEN { s.len() } else { KEY_LEN };
        let mut i: usize = 0;
        while i < n
            invariant
                n <= KEY_LEN,
                n <= s@.len(),
                n == s@.len() || n == KEY_LEN,
                i <= n,
                bytes@.len() == KEY_LEN,
                forall|j: int| 0 <= j < i ==> bytes@[j] == s@[j],
                forall|j: int| i <= j < KEY_LEN ==> bytes@[j] == 0u8,
            decreases n - i,
        {
            bytes[i] = s[i];
            i = i + 1;
        }
        let k = FixedKey { bytes };
        assert(k.bytes@ =~= key_bytes_of(s@));
        k
    }

    /// The key of a string's UTF-8 bytes.
    pub fn prefix(s: &str) -> (k: FixedKey)
        ensures
            k.bytes@ == key_bytes_of(s.spec_bytes()),
    {
        FixedKey::from_bytes(s.as_bytes())
    }

    /// The key's bytes.
    pub fn as_bytes(&self) -> (r: &[u8])
        ensures
            r@ == self.bytes@,
    {
        self.bytes.as_slice()
    }
}

/// Keys of inputs that agree on their first `KEY_LEN` bytes are equal, and a
/// shorter input's key ends in zeros.
pub proof fn lemma_key_truncation(s: Seq<u8>)
    ensures
        s.len() >= KEY_LEN ==> key_bytes_of(s) == key_bytes_of(s.subrange(0, KEY_LEN as int)),
        s.len() < KEY_LEN ==> forall|i: int| s.len() <= i < KEY_LEN ==> #[trigger] key_bytes_of(s)[i] == 0u8,
        forall|i: int| 0 <= i < KEY_LEN && i < s.len() ==> #[trigger] key_bytes_of(s)[i] == s[i],
{
    if s.len() >= KEY_LEN {
        assert(key_bytes_of(s) =~= key_bytes_of(s.subrange(0, KEY_LEN as int)));
    }
}

} // verus!
