//! Scaleform and Flash movie headers.
use vstd::prelude::*;
use vstd::string::StringExecFns;

use crate::bytes::{has_tag, read_u32_le, u32_le};
use crate::text::{
    decimal, law_decimal, law_upper_hex, push_decimal, push_upper_hex, spells, upper_hex,
};

verus! {

/// The largest SWF version that is taken for a real movie.
pub const MAX_VERSION: u8 = 20;

/// A movie header, which is also the shortest movie.
pub const HEADER_LEN: usize = 8;

/// Movies are shorter than this (64 MiB).
pub const LENGTH_LIMIT: u32 = 0x400_0000;

/// One of the magics `GFX`, `CFX` (Scaleform, raw and compressed), `FWS`, `CWS` (Flash, raw and
/// compressed) stands at `i`.
pub open spec fn magic_at(data: Seq<u8>, i: int) -> bool {
    ||| data[i] == 'G' as u8 && data[i + 1] == 'F' as u8 && data[i + 2] == 'X' as u8
    ||| data[i] == 'C' as u8 && data[i + 1] == 'F' as u8 && data[i + 2] == 'X' as u8
    ||| data[i] == 'F' as u8 && data[i + 1] == 'W' as u8 && data[i + 2] == 'S' as u8
    ||| data[i] == 'C' as u8 && data[i + 1] == 'W' as u8 && data[i + 2] == 'S' as u8
}

/// A believable movie header stands at `i`: a magic, a version byte between 1 and 20 and a file
/// length of at least the header and below 64 MiB.
pub open spec fn header_at(data: Seq<u8>, i: int) -> bool {
    &&& 0 <= i
    &&& i + HEADER_LEN <= data.len()
    &&& magic_at(data, i)
    &&& 1 <= data[i + 3] <= MAX_VERSION
    &&& HEADER_LEN <= u32_le(data, i + 4) < LENGTH_LIMIT
}

/// `i` is where the first believable header stands.
pub open spec fn first_header_at(data: Seq<u8>, i: int) -> bool {
    &&& header_at(data, i)
    &&& forall|j: int| 0 <= j < i ==> !header_at(data, j)
}

/// The three characters of the magic at `i`.
pub open spec fn magic_text(data: Seq<u8>, i: int) -> Seq<char> {
    seq![data[i] as char, data[i + 1] as char, data[i + 2] as char]
}

/// Offset, magic, version and file length of the first believable header, if there is one.
pub open spec fn movie_header(data: Seq<u8>) -> Option<(int, Seq<char>, u8, u32)> {
    if exists|i: int| first_header_at(data, i) {
        let i = choose|i: int| first_header_at(data, i);
        Some((i, magic_text(data, i), data[i + 3], u32_le(data, i + 4)))
    } else {
        None
    }
}

/// What a found header is in [`movie_header`]'s terms.
pub open spec fn header_view(found: Option<(usize, String, u8, u32)>) -> Option<
    (int, Seq<char>, u8, u32),
> {
    match found {
        Some((offset, magic, version, length)) => Some((offset as int, magic@, version, length)),
        None => None,
    }
}

/// `CFX v8`
pub open spec fn kind_text(magic: Seq<char>, version: u8) -> Seq<char> {
    magic + " v"@ + decimal(version as nat)
}

/// `CFX v8 filelen=1234 @0x0`, or a remark that there is no header.
pub open spec fn summary_text(header: Option<(int, Seq<char>, u8, u32)>) -> Seq<char> {
    match header {
        Some((offset, magic, version, length)) => kind_text(magic, version) + " filelen="@
            + decimal(length as nat) + " @0x"@ + upper_hex(offset as nat),
        None => "?? (no recognizable movie header)"@,
    }
}

/// A known first header is the one that [`movie_header`] speaks of.
pub proof fn lemma_movie_header(data: Seq<u8>, i: int)
    requires
        first_header_at(data, i),
    ensures
        movie_header(data) == Some(
            (i, magic_text(data, i), data[i + 3], u32_le(data, i + 4)),
        ),
{
    let j = choose|j: int| first_header_at(data, j);
    assert(first_header_at(data, j));
    assert(!(i < j) && !(j < i));
}

/// The name that starts a UCFX container holds the letters of a movie magic, and is not taken for a
/// movie header: the byte behind it is out of the range of versions.
pub proof fn law_ucfx_magic_is_no_movie(container: Seq<u8>)
    requires
        container.len() >= 5,
        has_tag(container, 0, 'U', 'C', 'F', 'X'),
        container[4] == 0 || container[4] > MAX_VERSION,
    ensures
        magic_at(container, 1),
        movie_header(container) matches Some((offset, _, _, _)) ==> offset >= 4,
{
    assert forall|i: int| 0 <= i < 4 implies !header_at(container, i) by {
        assert(container[0] == 'U' as u8 && container[1] == 'C' as u8);
        assert(container[2] == 'F' as u8 && container[3] == 'X' as u8);
    }
    if exists|i: int| first_header_at(container, i) {
        let i = choose|i: int| first_header_at(container, i);
        assert(first_header_at(container, i));
        lemma_movie_header(container, i);
    }
}

/// Find the first believable movie header: its offset, magic, version and file length.
pub fn find_movie(data: &[u8]) -> (found: Option<(usize, String, u8, u32)>)
    ensures
        header_view(found) == movie_header(data@),
        match found {
            Some((offset, _, _, _)) => first_header_at(data@, offset as int),
            None => forall|i: int| !header_at(data@, i),
        },
{
    if data.len() < HEADER_LEN {
        return None;
    }
    let last: usize = data.len() - HEADER_LEN;
    let mut i: usize = 0;
    while i <= last
        invariant
            last + HEADER_LEN == data@.len(),
            i <= last + 1,
            forall|j: int| 0 <= j < i ==> !header_at(data@, j),
        decreases last + 1 - i,
    {
        let magic: &str = if data[i] == 'G' as u8 && data[i + 1] == 'F' as u8 && data[i + 2] == 'X' as u8 {
            "GFX"
        } else if data[i] == 'C' as u8 && data[i + 1] == 'F' as u8 && data[i + 2] == 'X' as u8 {
            "CFX"
        } else if data[i] == 'F' as u8 && data[i + 1] == 'W' as u8 && data[i + 2] == 'S' as u8 {
            "FWS"
        } else if data[i] == 'C' as u8 && data[i + 1] == 'W' as u8 && data[i + 2] == 'S' as u8 {
            "CWS"
        } else {
            ""
        };
        proof {
            reveal_strlit("GFX");
            reveal_strlit("CFX");
            reveal_strlit("FWS");
            reveal_strlit("CWS");
            reveal_strlit("");
            assert(magic_at(data@, i as int) <==> magic@.len() != 0);
            if magic_at(data@, i as int) {
                assert(magic@ =~= magic_text(data@, i as int));
            }
        }
        if !magic.is_empty() {
            let version: u8 = data[i + 3];
            let length: u32 = read_u32_le(data, i + 4);
            if 1 <= version && version <= MAX_VERSION && length >= HEADER_LEN as u32 && length
                < LENGTH_LIMIT {
                proof {
                    lemma_movie_header(data@, i as int);
                }
                return Some((i, magic.to_owned(), version, length));
            }
        }
        i = i + 1;
    }
    None
}

/// Append the kind of a movie: its magic and version.
pub fn push_kind(out: &mut String, magic: &str, version: u8)
    ensures
        final(out)@ == old(out)@ + kind_text(magic@, version),
{
    out.append(magic);
    out.append(" v");
    push_decimal(out, version as u64);
    assert(out@ =~= old(out)@ + kind_text(magic@, version));
}

/// Describe the movie header in `data`, for the report of an extraction.
pub fn movie_summary(data: &[u8]) -> (text: String)
    ensures
        text@ == summary_text(movie_header(data@)),
{
    let mut text = String::new();
    match find_movie(data) {
        Some((offset, magic, version, length)) => {
            push_kind(&mut text, magic.as_str(), version);
            text.append(" filelen=");
            push_decimal(&mut text, length as u64);
            text.append(" @0x");
            push_upper_hex(&mut text, offset as u64);
        },
        None => {
            text.append("?? (no recognizable movie header)");
        },
    }
    assert(text@ =~= summary_text(movie_header(data@)));
    text
}

/// The three letters at `i` are these.
pub open spec fn letters_at(data: Seq<u8>, i: int, letters: Seq<char>) -> bool {
    data.subrange(i, i + 3) == letters.map_values(|c: char| c as u8)
}

/// Eight bytes at `i` look like a movie: the letters of a magic, a version from 1 to 20, a length from
/// 8 bytes to below 64 MiB.
pub open spec fn looks_like_movie(data: Seq<u8>, i: int) -> bool {
    &&& 0 <= i <= data.len() - 8
    &&& letters_at(data, i, seq!['G', 'F', 'X']) || letters_at(data, i, seq!['C', 'F', 'X'])
        || letters_at(data, i, seq!['F', 'W', 'S']) || letters_at(data, i, seq!['C', 'W', 'S'])
    &&& 0 < data[i + 3] < 21
    &&& 8 <= u32_le(data, i + 4) < 64 * 1024 * 1024
}

proof fn lemma_letters(data: Seq<u8>, i: int, a: char, b: char, c: char)
    requires
        0 <= i <= data.len() - 3,
    ensures
        letters_at(data, i, seq![a, b, c]) <==> data[i] == a as u8 && data[i + 1] == b as u8
            && data[i + 2] == c as u8,
{
    let here = data.subrange(i, i + 3);
    let there = seq![a, b, c].map_values(|c: char| c as u8);
    assert(here[0] == data[i] && here[1] == data[i + 1] && here[2] == data[i + 2]);
    assert(there[0] == a as u8 && there[1] == b as u8 && there[2] == c as u8);
    if data[i] == a as u8 && data[i + 1] == b as u8 && data[i + 2] == c as u8 {
        assert(here =~= there);
    }
}

proof fn lemma_looks(data: Seq<u8>, i: int)
    ensures
        looks_like_movie(data, i) == header_at(data, i),
{
    if 0 <= i <= data.len() - 8 {
        lemma_letters(data, i, 'G', 'F', 'X');
        lemma_letters(data, i, 'C', 'F', 'X');
        lemma_letters(data, i, 'F', 'W', 'S');
        lemma_letters(data, i, 'C', 'W', 'S');
    }
}

/// A movie is found where the first eight bytes stand that look like one, with the letters, version
/// and length that stand there, and wherever there are such bytes one is found.
pub proof fn law_first_movie_is_found(data: Seq<u8>)
    ensures
        match movie_header(data) {
            Some((offset, magic, version, length)) => {
                &&& looks_like_movie(data, offset)
                &&& forall|j: int| 0 <= j < offset ==> !looks_like_movie(data, j)
                &&& magic.len() == 3
                &&& letters_at(data, offset, magic)
                &&& version == data[offset + 3]
                &&& length == u32_le(data, offset + 4)
            },
            None => forall|j: int| !looks_like_movie(data, j),
        },
{
    assert forall|j: int| looks_like_movie(data, j) == header_at(data, j) by {
        lemma_looks(data, j);
    }
    if exists|i: int| first_header_at(data, i) {
        let i = choose|i: int| first_header_at(data, i);
        assert(first_header_at(data, i));
        let magic = magic_text(data, i);
        assert(data.subrange(i, i + 3) =~= magic.map_values(|c: char| c as u8));
    } else {
        assert forall|j: int| !header_at(data, j) by {
            if header_at(data, j) {
                lemma_some_header_is_first(data, j);
            }
        }
    }
}

/// Where there is a header, there is a first one.
proof fn lemma_some_header_is_first(data: Seq<u8>, i: int)
    requires
        header_at(data, i),
    ensures
        exists|j: int| first_header_at(data, j),
    decreases i,
{
    if exists|j: int| 0 <= j < i && header_at(data, j) {
        let j = choose|j: int| 0 <= j < i && header_at(data, j);
        lemma_some_header_is_first(data, j);
    } else {
        assert(first_header_at(data, i));
    }
}

/// What is found is told as it is.
pub proof fn law_found_header(found: Option<(usize, String, u8, u32)>)
    ensures
        found is None <==> header_view(found) is None,
        found matches Some((offset, magic, version, length)) ==> header_view(found) == Some(
            (offset as int, magic@, version, length),
        ),
{
}

/// The kind of a movie starts with its letters and ends with its version.
pub proof fn law_kind_text(magic: Seq<char>, version: u8)
    ensures
        ({
            let text = kind_text(magic, version);
            let n = magic.len() as int;
            &&& text.len() >= n + 3
            &&& text.subrange(0, n) == magic
            &&& text[n] == ' '
            &&& text[n + 1] == 'v'
            &&& spells(text.subrange(n + 2, text.len() as int), 10, version as nat)
        }),
{
    reveal_strlit(" v");
    let text = kind_text(magic, version);
    let n = magic.len() as int;
    law_decimal(version as nat);
    assert(text.subrange(0, n) =~= magic);
    assert(text.subrange(n + 2, text.len() as int) =~= decimal(version as nat));
}

/// The summary of a movie names its kind, its length and where it starts, in this order.
pub proof fn law_summary_text(offset: int, magic: Seq<char>, version: u8, length: u32)
    requires
        offset >= 0,
    ensures
        ({
            let text = summary_text(Some((offset, magic, version, length)));
            let a = kind_text(magic, version).len() as int;
            exists|b: int|
                {
                    &&& a + 9 < b
                    &&& b + 4 < text.len()
                    &&& text.subrange(0, a) == kind_text(magic, version)
                    &&& text.subrange(a, a + 9) == " filelen="@
                    &&& spells(#[trigger] text.subrange(a + 9, b), 10, length as nat)
                    &&& text.subrange(b, b + 4) == " @0x"@
                    &&& spells(text.subrange(b + 4, text.len() as int), 16, offset as nat)
                }
        }),
        summary_text(None) == "?? (no recognizable movie header)"@,
{
    reveal_strlit(" filelen=");
    reveal_strlit(" @0x");
    let text = summary_text(Some((offset, magic, version, length)));
    let kind = kind_text(magic, version);
    let size = decimal(length as nat);
    let place = upper_hex(offset as nat);
    law_decimal(length as nat);
    law_upper_hex(offset as nat);
    let a = kind.len() as int;
    let b = a + 9 + size.len();
    assert(text.subrange(0, a) =~= kind);
    assert(text.subrange(a, a + 9) =~= " filelen="@);
    assert(text.subrange(a + 9, b) =~= size);
    assert(text.subrange(b, b + 4) =~= " @0x"@);
    assert(text.subrange(b + 4, text.len() as int) =~= place);
}

} // verus!
