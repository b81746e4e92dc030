//! Where a dataset's files live and how their format tag is read.
//!
//! A format tag is a codec name, optionally followed by `-` and a
//! compression name: `csv`, `cap-gz`, `rmp-snz`, `text-deflate`.
use vstd::prelude::*;
use vstd::string::StrSliceExecFns;

verus! {

/// The compression layer of a format.
#[derive(Clone, Copy, Debug, PartialEq, Eq, Structural)]
pub enum Compression {
    Plain,
    Gzip,
    Deflate,
    Snappy,
}

/// The decode layer of a format.
#[derive(Clone, Copy, Debug, PartialEq, Eq, Structural)]
pub enum Codec {
    Bincode,
    Cbor,
    Csv,
    Rmp,
    Capnp,
    Protobuf,
}

/// A format tag resolved into its two layers.
#[derive(Clone, Copy, Debug, PartialEq, Eq, Structural)]
pub struct Format {
    pub codec: Codec,
    pub compression: Compression,
}

/// Why a dataset, table or format could not be resolved.
#[derive(Debug)]
pub enum FormatError {
    /// No file matched the dataset, table and format.
    NotFound,
    /// The codec name is not known; it is carried.
    UnsupportedFormat(String),
    /// The compression name is not known; it is carried.
    UnsupportedCompression(String),
}

/// The position of the first `-` of `s`, or its length when it has none.
pub open spec fn first_dash(s: Seq<char>) -> nat
    decreases s.len(),
{
    if s.len() == 0 {
        0
    } else if s[0] == '-' {
        0
    } else {
        1 + first_dash(s.drop_first())
    }
}

/// The codec name of a format tag: everything before the first `-`.
pub open spec fn codec_tag(s: Seq<char>) -> Seq<char> {
    s.subrange(0, first_dash(s) as int)
}

/// The compression name of a format tag: everything after the first `-`,
/// if there is one.
pub open spec fn compression_tag(s: Seq<char>) -> Option<Seq<char>> {
    if first_dash(s) < s.len() {
        Some(s.subrange(first_dash(s) + 1int, s.len() as int))
    } else {
        None
    }
}

/// The codec that a codec name selects.
pub open spec fn codec_named(t: Seq<char>) -> Option<Codec> {
    if t == "bincode"@ {
        Some(Codec::Bincode)
    } else if t == "cbor"@ {
        Some(Codec::Cbor)
    } else if t == "csv"@ || t == "text"@ {
        Some(Codec::Csv)
    } else if t == "rmp"@ {
        Some(Codec::Rmp)
    } else if t == "cap"@ {
        Some(Codec::Capnp)
    } else if t == "pbuf"@ {
        Some(Codec::Protobuf)
    } else {
        None
    }
}

/// The compression that a compression name selects.
pub open spec fn compression_named(t: Seq<char>) -> Option<Compression> {
    if t == "gz"@ {
        Some(Compression::Gzip)
    } else if t == "deflate"@ {
        Some(Compression::Deflate)
    } else if t == "snz"@ {
        Some(Compression::Snappy)
    } else {
        None
    }
}

proof fn lemma_first_dash(s: Seq<char>, i: int)
    requires
        0 <= i <= s.len(),
        i == s.len() || s[i] == '-',
        forall|j: int| 0 <= j < i ==> s[j] != '-',
    ensures
        first_dash(s) == i,
    decreases i,
{
    if i > 0 {
        lemma_first_dash(s.drop_first(), i - 1);
    }
}

/// Whether two strings hold the same characters.
fn same_text(a: &str, b: &str) -> (r: bool)
    ensures
        r == (a@ == b@),
{
    let n = a.unicode_len();
    if n != b.unicode_len() {
        return false;
    }
    let mut i: usize = 0;
    while i < n
        invariant
            n == a@.len(),
            n == b@.len(),
            i <= n,
            forall|j: int| 0 <= j < i ==> a@[j] == b@[j],
        decreases n - i,
    {
        if a.get_char(i) != b.get_char(i) {
            return false;
        }
        i = i + 1;
    }
    assert(a@ =~= b@);
    true
}

/// The position of the first `-` of `s`, or its length.
fn find_dash(s: &str) -> (r: usize)
    ensures
        r == first_dash(s@),
        r <= s@.len(),
{
    let n = s.unicode_len();
    let mut i: usize = 0;
    while i < n
        invariant
            n == s@.len(),
            i <= n,
            forall|j: int| 0 <= j < i ==> s@[j] != '-',
        decreases n - i,
    {
        if s.get_char(i) == '-' {
            proof {
                lemma_first_dash(s@, i as int);
            }
            return i;
        }
        i = i + 1;
    }
    proof {
        lemma_first_dash(s@, i as int);
    }
    i
}

/// The codec that a codec name selects.
pub fn codec_for(t: &str) -> (r: Option<Codec>)
    ensures
        r == codec_named(t@),
{
    if same_text(t, "bincode") {
        Some(Codec::Bincode)
    } else if same_text(t, "cbor") {
        Some(Codec::Cbor)
    } else if same_text(t, "csv") || same_text(t, "text") {
        Some(Codec::Csv)
    } else if same_text(t, "rmp") {
        Some(Codec::Rmp)
    } else if same_text(t, "cap") {
        Some(Codec::Capnp)
    } else if same_text(t, "pbuf") {
        Some(Codec::Protobuf)
    } else {
        None
    }
}

/// The compression that a compression name selects.
pub fn compression_for(t: &str) -> (r: Option<Compression>)
    ensures
        r == compression_named(t@),
{
    if same_text(t, "gz") {
        Some(Compression::Gzip)
    } else if same_text(t, "deflate") {
        Some(Compression::Deflate)
    } else if same_text(t, "snz") {
        Some(Compression::Snappy)
    } else {
        None
    }
}

/// Resolves a format tag. An unknown codec name is reported before an
/// unknown compression name; a tag without `-` is uncompressed.
pub fn parse_format(format: &str) -> (r: Result<Format, FormatError>)
    ensures
        match r {
            Ok(f) => codec_named(codec_tag(format@)) == Some(f.codec) && match compression_tag(
                format@,
            ) {
                None => f.compression == Compression::Plain,
                Some(t) => compression_named(t) == Some(f.compression),
            },
            Err(FormatError::UnsupportedFormat(t)) => codec_named(codec_tag(format@)) is None
                && t@ == codec_tag(format@),
            Err(FormatError::UnsupportedCompression(t)) => codec_named(codec_tag(format@)) is Some
                && compression_tag(format@) == Some(t@) && compression_named(t@) is None,
            Err(FormatError::NotFound) => false,
        },
{
    let n = format.unicode_len();
    let d = find_dash(format);
    let head = format.substring_char(0, d);
    let codec = match codec_for(head) {
        Some(c) => c,
        None => {
            return Err(FormatError::UnsupportedFormat(head.to_owned()));
        },
    };
    if d == n {
        return Ok(Format { codec, compression: Compression::Plain });
    }
    let tail = format.substring_char(d + 1, n);
    match compression_for(tail) {
        Some(compression) => Ok(Format { codec, compression }),
        None => Err(FormatError::UnsupportedCompression(tail.to_owned())),
    }
}

/// Relies on `format!`: the result is `a` followed by `b`.
#[verifier::external_body]
fn concat(a: &str, b: &str) -> (r: String)
    ensures
        r@ == a@ + b@,
{
    format!("{}{}", a, b)
}

/// The directory of a table of a dataset stored in a given state.
pub open spec fn data_dir(state: Seq<char>, set: Seq<char>, table: Seq<char>) -> Seq<char> {
    "data/"@ + state + "/"@ + set + "/"@ + table
}

/// The file extension of a format: its tag, but `deflate` for the raw
/// `text-deflate` state.
pub open spec fn extension_of(format: Seq<char>) -> Seq<char> {
    if format == "text-deflate"@ {
        "deflate"@
    } else {
        format
    }
}

/// The directory that holds `table` of dataset `set` in storage state `state`.
pub fn data_dir_for(state: &str, set: &str, table: &str) -> (r: String)
    ensures
        r@ == data_dir(state@, set@, table@),
{
    let a = concat("data/", state);
    let b = concat(a.as_str(), "/");
    let c = concat(b.as_str(), set);
    let d = concat(c.as_str(), "/");
    let r = concat(d.as_str(), table);
    assert(r@ =~= data_dir(state@, set@, table@));
    r
}

/// The file extension of a format.
pub fn extension_for(format: &str) -> (r: &str)
    ensures
        r@ == extension_of(format@),
{
    if same_text(format, "text-deflate") {
        "deflate"
    } else {
        format
    }
}

/// The glob pattern that matches the files of a table in a format.
pub fn file_pattern(set: &str, table: &str, format: &str) -> (r: String)
    ensures
        r@ == data_dir(format@, set@, table@) + "/*."@ + extension_of(format@),
{
    let dir = data_dir_for(format, set, table);
    let a = concat(dir.as_str(), "/*.");
    let r = concat(a.as_str(), extension_for(format));
    assert(r@ =~= data_dir(format@, set@, table@) + "/*."@ + extension_of(format@));
    r
}

/// Lexicographic order on texts, character by character.
pub open spec fn text_le(a: Seq<char>, b: Seq<char>) -> bool
    decreases a.len(),
{
    if a.len() == 0 {
        true
    } else if b.len() == 0 {
        false
    } else if a[0] as u32 != b[0] as u32 {
        (a[0] as u32) < (b[0] as u32)
    } else {
        text_le(a.drop_first(), b.drop_first())
    }
}

/// Each path is no greater than the next.
pub open spec fn paths_sorted(s: Seq<String>) -> bool {
    forall|i: int| 0 <= i < s.len() - 1 ==> text_le(#[trigger] s[i]@, s[i + 1]@)
}

proof fn lemma_text_le_total(a: Seq<char>, b: Seq<char>)
    ensures
        text_le(a, b) || text_le(b, a),
    decreases a.len(),
{
    if a.len() > 0 && b.len() > 0 && a[0] as u32 == b[0] as u32 {
        lemma_text_le_total(a.drop_first(), b.drop_first());
    }
}

/// Whether `a` is no greater than `b`.
fn less_eq(a: &str, b: &str) -> (r: bool)
    ensures
        r == text_le(a@, b@),
{
    let n = a.unicode_len();
    let m = b.unicode_len();
    let mut i: usize = 0;
    assert(a@.subrange(0, n as int) =~= a@);
    assert(b@.subrange(0, m as int) =~= b@);
    while i < n && i < m
        invariant
            n == a@.len(),
            m == b@.len(),
            i <= n,
            i <= m,
            text_le(a@, b@) == text_le(a@.subrange(i as int, n as int), b@.subrange(i as int, m as int)),
        decreases n - i,
    {
        let x = a.get_char(i);
        let y = b.get_char(i);
        proof {
            let ra = a@.subrange(i as int, n as int);
            let rb = b@.subrange(i as int, m as int);
            assert(ra.drop_first() =~= a@.subrange(i + 1, n as int));
            assert(rb.drop_first() =~= b@.subrange(i + 1, m as int));
        }
        if x as u32 != y as u32 {
            return (x as u32) < (y as u32);
        }
        i = i + 1;
    }
    i == n
}

/// Orders the paths that matched a table's pattern; no path at all is
/// `NotFound`.
pub fn order_files(paths: Vec<String>) -> (r: Result<Vec<String>, FormatError>)
    ensures
        paths@.len() == 0 ==> r is Err && r->Err_0 is NotFound,
        paths@.len() > 0 ==> r is Ok,
        r is Ok ==> paths_sorted(r->Ok_0@) && r->Ok_0@.to_multiset() == paths@.to_multiset(),
{
    broadcast use vstd::seq_lib::group_to_multiset_ensures;

    if paths.len() == 0 {
        return Err(FormatError::NotFound);
    }
    let ghost whole = paths@;
    let mut rest = paths;
    let mut sorted: Vec<String> = Vec::new();
    while rest.len() > 0
        invariant
            paths_sorted(sorted@),
            sorted@.to_multiset().add(rest@.to_multiset()) == whole.to_multiset(),
        decreases rest@.len(),
    {
        let ghost before = rest@;
        let x = rest.pop().unwrap();
        proof {
            assert(before =~= rest@.push(x));
        }
        let mut p: usize = 0;
        while p < sorted.len() && less_eq(sorted[p].as_str(), x.as_str())
            invariant
                p <= sorted@.len(),
                forall|j: int| 0 <= j < p ==> text_le(#[trigger] sorted@[j]@, x@),
            decreases sorted@.len() - p,
        {
            p = p + 1;
        }
        let ghost old_sorted = sorted@;
        proof {
            if p < sorted@.len() {
                lemma_text_le_total(sorted@[p as int]@, x@);
            }
        }
        sorted.insert(p, x);
        proof {
            assert(sorted@ == old_sorted.insert(p as int, x));
            vstd::seq_lib::to_multiset_insert(old_sorted, p as int, x);
            vstd::seq_lib::to_multiset_build(rest@, x);
            assert(sorted@.to_multiset().add(rest@.to_multiset()) =~= old_sorted.to_multiset().add(
                before.to_multiset(),
            ));
            assert forall|i: int| 0 <= i < sorted@.len() - 1 implies text_le(
                #[trigger] sorted@[i]@,
                sorted@[i + 1]@,
            ) by {
                if i + 1 < p {
                    assert(text_le(old_sorted[i]@, old_sorted[i + 1]@));
                } else if i + 1 == p {
                } else if i == p {
                } else {
                    assert(text_le(old_sorted[i - 1]@, old_sorted[i]@));
                }
            }
        }
    }
    Ok(sorted)
}

} // verus!
