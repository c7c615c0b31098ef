//! UCFX containers: the wrapper in which a movie is stored.
//!
//! A container is `UCFX`, the offset of its data area, two words that are carried along, a count of
//! descriptors and the descriptors of twenty bytes each: a tag, the offset of the body in the data
//! area, the size of the body. A `CSUM` trailer with a checksum ends it.
use vstd::prelude::*;
use vstd::slice::slice_subrange;

use crate::bytes::{
    has_tag, law_low_part, law_tag, le_bytes, lemma_le_bytes_of_u32_le, lemma_low32, lemma_u32_le_of_le_bytes, low32,
    push_bytes, push_u32_le, read_u32_le, tag_at, truncate32, u32_le,
};
use crate::checksum::{crc32, crc32_mercs2};
use crate::error::{Error, ErrorView};
use crate::strings::{decoded_text, from_utf8_lossy};

verus! {

/// Bytes before the first descriptor, and bytes of a descriptor.
pub const ROW_LEN: usize = 20;

/// Bytes of the `CSUM` trailer.
pub const TRAILER_LEN: usize = 8;

/// The body offset of a descriptor that has no body.
pub const NO_BODY: u32 = 0xFFFF_FFFF;

/// The container starts with the tag of its format.
pub open spec fn is_ucfx(c: Seq<u8>) -> bool {
    c.len() >= 4 && has_tag(c, 0, 'U', 'C', 'F', 'X')
}

/// Where the bodies start.
pub open spec fn data_area_off(c: Seq<u8>) -> u32 {
    u32_le(c, 4)
}

/// How many descriptors the header announces.
pub open spec fn n_desc(c: Seq<u8>) -> u32 {
    u32_le(c, 16)
}

/// How many descriptors have room in the container.
pub open spec fn max_desc(c: Seq<u8>) -> int {
    if c.len() >= ROW_LEN {
        (c.len() - ROW_LEN) / ROW_LEN as int
    } else {
        0
    }
}

/// Where descriptor `d` stands.
pub open spec fn row_at(d: int) -> int {
    ROW_LEN + d * ROW_LEN
}

/// The body offset that descriptor `d` gives, relative to the data area.
pub open spec fn row_offset(c: Seq<u8>, d: int) -> u32 {
    u32_le(c, row_at(d) + 4)
}

/// The body size that descriptor `d` gives.
pub open spec fn row_size(c: Seq<u8>, d: int) -> u32 {
    u32_le(c, row_at(d) + 8)
}

/// What body offsets are relative to: the data area, or the first two words where no data area is
/// given.
pub open spec fn body_base(c: Seq<u8>) -> int {
    if data_area_off(c) > 0 {
        data_area_off(c) as int
    } else {
        8
    }
}

/// Where the body of descriptor `d` starts.
pub open spec fn body_start(c: Seq<u8>, d: int) -> int {
    body_base(c) + row_offset(c, d)
}

/// Where the body of descriptor `d` ends.
pub open spec fn body_end(c: Seq<u8>, d: int) -> int {
    body_start(c, d) + row_size(c, d)
}

/// The header is a UCFX header and every announced descriptor has room.
pub open spec fn has_rows(c: Seq<u8>) -> bool {
    &&& c.len() >= ROW_LEN
    &&& is_ucfx(c)
    &&& n_desc(c) <= max_desc(c)
}

/// Descriptor `d` describes a `data` body.
pub open spec fn is_data_row(c: Seq<u8>, d: int) -> bool {
    has_tag(c, row_at(d), 'd', 'a', 't', 'a') && row_offset(c, d) != NO_BODY
}

/// Descriptor `d` is the first that describes a `data` body.
pub open spec fn first_data_row(c: Seq<u8>, d: int) -> bool {
    &&& 0 <= d < n_desc(c)
    &&& is_data_row(c, d)
    &&& forall|k: int| 0 <= k < d ==> !is_data_row(c, k)
}

/// The body of the first `data` descriptor, where there is one and its body lies in the container.
pub open spec fn data_chunk(c: Seq<u8>) -> Option<Seq<u8>> {
    if has_rows(c) && exists|d: int| first_data_row(c, d) {
        let d = choose|d: int| first_data_row(c, d);
        if body_end(c, d) <= c.len() {
            Some(c.subrange(body_start(c, d), body_end(c, d)))
        } else {
            None
        }
    } else {
        None
    }
}

/// The end of the first `data` body is a number that the machine can address, as it always is where
/// addresses have 64 bits.
pub open spec fn data_chunk_addressable(c: Seq<u8>) -> bool {
    has_rows(c) ==> forall|d: int| #[trigger]
        first_data_row(c, d) ==> body_end(c, d) <= usize::MAX
}

/// The checksum that a `CSUM` trailer stores and the checksum of what stands before it.
pub open spec fn csum_trailer(c: Seq<u8>) -> Option<(u32, u32)> {
    if c.len() >= TRAILER_LEN && has_tag(c, c.len() - 8, 'C', 'S', 'U', 'M') {
        Some((u32_le(c, c.len() - 4), crc32(c.subrange(0, c.len() - 8))))
    } else {
        None
    }
}

/// Why no other movie can be put in a container, if so: it has to be a UCFX container of one `data`
/// descriptor in which header, movie and trailer follow each other.
pub open spec fn rebuild_refusal(c: Seq<u8>) -> Option<ErrorView> {
    if c.len() < 32 || !is_ucfx(c) {
        Some(ErrorView::NotUcfx)
    } else if n_desc(c) != 1 || !has_tag(c, 20, 'd', 'a', 't', 'a') {
        Some(
            ErrorView::NotSimple { n_desc: n_desc(c), tag: decoded_text(c.subrange(20, 24)) },
        )
    } else if data_area_off(c) + row_size(c, 0) + 8 != c.len() {
        Some(
            ErrorView::Layout {
                header: data_area_off(c),
                data: row_size(c, 0),
                total: c.len() as usize,
            },
        )
    } else {
        None
    }
}

/// A container is refused, or its header covers the size word that is to be patched.
pub open spec fn header_covers_size(c: Seq<u8>) -> bool {
    rebuild_refusal(c) is None ==> data_area_off(c) >= 32
}

/// The header of `c` with the size of `movie` patched in, and the movie.
pub open spec fn spliced(c: Seq<u8>, movie: Seq<u8>) -> Seq<u8> {
    c.subrange(0, 28) + le_bytes(low32(movie.len())) + c.subrange(32, data_area_off(c) as int)
        + movie
}

/// `CSUM` and the checksum of `body`.
pub open spec fn trailer(body: Seq<u8>) -> Seq<u8> {
    seq!['C' as u8, 'S' as u8, 'U' as u8, 'M' as u8] + le_bytes(crc32(body))
}

/// The container `c` with `movie` in place of its own.
pub open spec fn rebuilt(c: Seq<u8>, movie: Seq<u8>) -> Seq<u8> {
    spliced(c, movie) + trailer(spliced(c, movie))
}

/// Calls `mercs2_formats::ucfx::extract_data_chunk` and claims that it returns the body of the first
/// `data` descriptor as [`data_chunk`] says. It adds up offsets as `usize`, which overflows where
/// their sum cannot be addressed.
#[verifier::external_body]
pub(crate) fn extract_data_chunk(container: &[u8]) -> (body: Option<Vec<u8>>)
    requires
        data_chunk_addressable(container@),
    ensures
        match body {
            Some(b) => data_chunk(container@) == Some(b@),
            None => data_chunk(container@) is None,
        },
{
    mercs2_formats::ucfx::extract_data_chunk(container)
}

/// A known first `data` descriptor is the one that [`data_chunk`] speaks of.
pub proof fn lemma_data_chunk(c: Seq<u8>, d: int)
    requires
        has_rows(c),
        first_data_row(c, d),
    ensures
        data_chunk(c) == if body_end(c, d) <= c.len() {
            Some(c.subrange(body_start(c, d), body_end(c, d)))
        } else {
            None
        },
{
    let e = choose|e: int| first_data_row(c, e);
    assert(first_data_row(c, e));
    assert(!(d < e) && !(e < d));
}

/// The stored movie file (the `data` chunk) inside a movie container.
pub fn container_movie(container: &[u8]) -> (movie: Result<Vec<u8>, Error>)
    requires
        data_chunk_addressable(container@),
    ensures
        match movie {
            Ok(m) => data_chunk(container@) == Some(m@),
            Err(e) => data_chunk(container@) is None && e@ == ErrorView::NoDataChunk,
        },
{
    match extract_data_chunk(container) {
        Some(movie) => Ok(movie),
        None => Err(Error::NoDataChunk),
    }
}

/// Rebuild a movie container with a new movie file spliced in: keep the header and its single
/// `data` descriptor, patch the descriptor's body size, append the movie and a fresh `CSUM`.
pub fn rebuild_container(orig: &[u8], new_movie: &[u8]) -> (container: Result<Vec<u8>, Error>)
    requires
        header_covers_size(orig@),
    ensures
        match container {
            Ok(c) => rebuild_refusal(orig@) is None && c@ == rebuilt(orig@, new_movie@),
            Err(e) => rebuild_refusal(orig@) == Some(e@),
        },
{
    if orig.len() < 32 || !tag_at(orig, 0, 'U', 'C', 'F', 'X') {
        return Err(Error::NotUcfx);
    }
    let header: u32 = read_u32_le(orig, 4);
    let count: u32 = read_u32_le(orig, 16);
    if count != 1 || !tag_at(orig, 20, 'd', 'a', 't', 'a') {
        let tag: String = from_utf8_lossy(slice_subrange(orig, 20, 24));
        return Err(Error::NotSimple { n_desc: count, tag });
    }
    let size: u32 = read_u32_le(orig, 28);
    if header as u64 + size as u64 + 8 != orig.len() as u64 {
        return Err(Error::Layout { header, data: size, total: orig.len() });
    }
    let mut body: Vec<u8> = Vec::new();
    push_bytes(&mut body, slice_subrange(orig, 0, 28));
    push_u32_le(&mut body, truncate32(new_movie.len()));
    push_bytes(&mut body, slice_subrange(orig, 32, header as usize));
    push_bytes(&mut body, new_movie);
    assert(body@ == spliced(orig@, new_movie@));
    let crc: u32 = crc32_mercs2(body.as_slice());
    body.push('C' as u8);
    body.push('S' as u8);
    body.push('U' as u8);
    body.push('M' as u8);
    push_u32_le(&mut body, crc);
    assert(body@ =~= rebuilt(orig@, new_movie@));
    Ok(body)
}

/// Whether [`container_movie`] can be asked for a container on this machine.
pub fn can_extract(container: &[u8]) -> (possible: bool)
    ensures
        possible == data_chunk_addressable(container@),
{
    let ghost c = container@;
    let len: usize = container.len();
    if len < ROW_LEN || !tag_at(container, 0, 'U', 'C', 'F', 'X') {
        return true;
    }
    let count: u32 = read_u32_le(container, 16);
    if count as u64 > ((len - ROW_LEN) / ROW_LEN) as u64 {
        return true;
    }
    let base: u32 = if read_u32_le(container, 4) > 0 {
        read_u32_le(container, 4)
    } else {
        8
    };
    let mut d: u32 = 0;
    while d < count
        invariant
            c == container@,
            len == c.len(),
            has_rows(c),
            count == n_desc(c),
            base == body_base(c),
            d <= count,
            forall|k: int| 0 <= k < d ==> !is_data_row(c, k),
        decreases count - d,
    {
        assert(row_at(d as int) + ROW_LEN <= c.len());
        assert(d as usize * ROW_LEN + ROW_LEN <= len);
        let row: usize = ROW_LEN + d as usize * ROW_LEN;
        let offset: u32 = read_u32_le(container, row + 4);
        if tag_at(container, row, 'd', 'a', 't', 'a') && offset != NO_BODY {
            let size: u32 = read_u32_le(container, row + 8);
            let end: u64 = base as u64 + offset as u64 + size as u64;
            proof {
                assert(first_data_row(c, d as int));
                assert forall|e: int| #[trigger] first_data_row(c, e) implies e == d by {
                    assert(!(e < d) && !(d < e));
                }
            }
            return end <= usize::MAX as u64;
        }
        d = d + 1;
    }
    true
}

/// Whether [`rebuild_container`] can be asked for a container: it is refused, or its header reaches
/// over the size word.
pub fn can_rebuild(orig: &[u8]) -> (possible: bool)
    ensures
        possible == header_covers_size(orig@),
{
    if orig.len() < 32 || !tag_at(orig, 0, 'U', 'C', 'F', 'X') {
        return true;
    }
    let header: u32 = read_u32_le(orig, 4);
    if read_u32_le(orig, 16) != 1 || !tag_at(orig, 20, 'd', 'a', 't', 'a') {
        return true;
    }
    let size: u32 = read_u32_le(orig, 28);
    header as u64 + size as u64 + 8 != orig.len() as u64 || header >= 32
}

/// What a rebuilt container holds: every byte of the old header but the size word, the size of the
/// new movie there, the new movie where the old one was, and a `CSUM` trailer that checks out.
pub proof fn law_rebuilt_layout(c: Seq<u8>, movie: Seq<u8>)
    requires
        rebuild_refusal(c) is None,
        header_covers_size(c),
    ensures
        ({
            let r = rebuilt(c, movie);
            let off = data_area_off(c) as int;
            &&& r.len() == off + movie.len() + TRAILER_LEN
            &&& r.subrange(0, 28) == c.subrange(0, 28)
            &&& u32_le(r, 28) == low32(movie.len())
            &&& r.subrange(32, off) == c.subrange(32, off)
            &&& r.subrange(off, off + movie.len()) == movie
            &&& csum_trailer(r) == Some((crc32(spliced(c, movie)), crc32(spliced(c, movie))))
        }),
{
    let r = rebuilt(c, movie);
    let off = data_area_off(c) as int;
    let body = spliced(c, movie);
    assert(body.len() == off + movie.len());
    assert(r.subrange(0, 28) =~= c.subrange(0, 28));
    assert(r.subrange(28, 32) =~= le_bytes(low32(movie.len())));
    lemma_u32_le_of_le_bytes(r, 28, low32(movie.len()));
    assert(r.subrange(32, off) =~= c.subrange(32, off));
    assert(r.subrange(off, off + movie.len()) =~= movie);
    assert(r.subrange(0, r.len() - 8) =~= body);
    assert(r.subrange(r.len() - 4, r.len() - 4 + 4) =~= le_bytes(crc32(body)));
    lemma_u32_le_of_le_bytes(r, r.len() - 4, crc32(body));
    assert(has_tag(r, r.len() - 8, 'C', 'S', 'U', 'M'));
}

/// The header words of a rebuilt container are those of the old one.
pub proof fn lemma_rebuilt_words(c: Seq<u8>, movie: Seq<u8>)
    requires
        rebuild_refusal(c) is None,
        header_covers_size(c),
    ensures
        is_ucfx(rebuilt(c, movie)),
        data_area_off(rebuilt(c, movie)) == data_area_off(c),
        n_desc(rebuilt(c, movie)) == 1,
        has_tag(rebuilt(c, movie), 20, 'd', 'a', 't', 'a'),
        row_offset(rebuilt(c, movie), 0) == row_offset(c, 0),
        row_size(rebuilt(c, movie), 0) == low32(movie.len()),
{
    law_rebuilt_layout(c, movie);
    let r = rebuilt(c, movie);
    assert forall|i: int| 0 <= i < 28 implies r[i] == c[i] by {
        assert(r.subrange(0, 28)[i] == c.subrange(0, 28)[i]);
    }
}

/// Extraction gives back what was injected. Where the descriptor puts the body at the start of the
/// data area, as movie containers do, the movie that comes out of a rebuilt container is byte for
/// byte the one that went in, whatever its size. Where the descriptor gives another offset, the
/// extracted window is moved by that much into the trailer.
pub proof fn law_extract_after_rebuild(c: Seq<u8>, movie: Seq<u8>)
    requires
        rebuild_refusal(c) is None,
        header_covers_size(c),
        movie.len() <= u32::MAX,
    ensures
        row_offset(c, 0) == 0 ==> data_chunk(rebuilt(c, movie)) == Some(movie),
        row_offset(c, 0) <= TRAILER_LEN ==> data_chunk(rebuilt(c, movie)) == Some(
            (movie + trailer(spliced(c, movie))).subrange(
                row_offset(c, 0) as int,
                row_offset(c, 0) + movie.len(),
            ),
        ),
        row_offset(c, 0) > TRAILER_LEN ==> data_chunk(rebuilt(c, movie)) is None,
{
    lemma_rebuilt_accepted(c, movie);
    lemma_extract_spliced(rebuilt(c, movie), spliced(c, movie), trailer(spliced(c, movie)), movie);
}

/// The `data` chunk of a container that is the splice `body` with `follow` behind it.
proof fn lemma_extract_spliced(r: Seq<u8>, body: Seq<u8>, follow: Seq<u8>, movie: Seq<u8>)
    requires
        r == body + follow,
        is_movie_container(r),
        row_size(r, 0) == movie.len(),
        data_area_off(r) + movie.len() == body.len(),
        body.subrange(data_area_off(r) as int, body.len() as int) == movie,
        follow.len() == TRAILER_LEN,
    ensures
        row_offset(r, 0) == 0 ==> data_chunk(r) == Some(movie),
        row_offset(r, 0) <= TRAILER_LEN ==> data_chunk(r) == Some(
            (movie + follow).subrange(
                row_offset(r, 0) as int,
                row_offset(r, 0) + movie.len(),
            ),
        ),
        row_offset(r, 0) > TRAILER_LEN ==> data_chunk(r) is None,
{
    reveal(is_movie_container);
    let at = row_offset(r, 0) as int;
    lemma_single_row(r);
    if at <= TRAILER_LEN {
        lemma_window(body, follow, movie, data_area_off(r) as int, at);
        assert((movie + follow).subrange(0, movie.len() as int) =~= movie);
    }
}

/// The `data` chunk of a container with a single descriptor, which is tagged `data`.
proof fn lemma_single_row(r: Seq<u8>)
    requires
        r.len() >= 40,
        is_ucfx(r),
        n_desc(r) == 1,
        has_tag(r, 20, 'd', 'a', 't', 'a'),
    ensures
        has_rows(r),
        data_chunk(r) == if row_offset(r, 0) != NO_BODY && body_end(r, 0) <= r.len() {
            Some(r.subrange(body_start(r, 0), body_end(r, 0)))
        } else {
            None
        },
{
    assert(max_desc(r) >= 1);
    if row_offset(r, 0) == NO_BODY {
        assert forall|d: int| !first_data_row(r, d) by {
            if first_data_row(r, d) {
                assert(d == 0);
            }
        }
    } else {
        assert(first_data_row(r, 0));
        lemma_data_chunk(r, 0);
    }
}

/// A window over the last `movie.len()` bytes of `body`, moved by `at` into what follows them.
proof fn lemma_window(body: Seq<u8>, follow: Seq<u8>, movie: Seq<u8>, off: int, at: int)
    requires
        0 <= off,
        0 <= at <= follow.len(),
        body.len() == off + movie.len(),
        body.subrange(off, body.len() as int) == movie,
    ensures
        (body + follow).subrange(off + at, off + at + movie.len()) == (movie + follow).subrange(
            at,
            at + movie.len(),
        ),
{
    let left = (body + follow).subrange(off + at, off + at + movie.len());
    let right = (movie + follow).subrange(at, at + movie.len());
    assert forall|i: int| 0 <= i < movie.len() implies left[i] == right[i] by {
        if at + i < movie.len() {
            assert(body.subrange(off, body.len() as int)[at + i] == body[off + at + i]);
        }
    }
    assert(left =~= right);
}

/// A rebuilt container takes another movie, and then only the last one counts.
pub proof fn law_rebuild_again(c: Seq<u8>, first: Seq<u8>, second: Seq<u8>)
    requires
        rebuild_refusal(c) is None,
        header_covers_size(c),
        first.len() <= u32::MAX,
    ensures
        rebuild_refusal(rebuilt(c, first)) is None,
        header_covers_size(rebuilt(c, first)),
        rebuilt(rebuilt(c, first), second) == rebuilt(c, second),
{
    lemma_rebuilt_accepted(c, first);
    lemma_same_header(c, rebuilt(c, first), second);
}

/// A container that takes another movie.
#[verifier::opaque]
spec fn is_movie_container(r: Seq<u8>) -> bool {
    &&& r.len() >= 40
    &&& is_ucfx(r)
    &&& n_desc(r) == 1
    &&& has_tag(r, 20, 'd', 'a', 't', 'a')
    &&& data_area_off(r) + row_size(r, 0) + 8 == r.len()
    &&& data_area_off(r) >= 32
}

/// A rebuilt container has the header of the old one and adds up again.
proof fn lemma_rebuilt_accepted(c: Seq<u8>, movie: Seq<u8>)
    requires
        rebuild_refusal(c) is None,
        header_covers_size(c),
        movie.len() <= u32::MAX,
    ensures
        is_movie_container(rebuilt(c, movie)),
        data_area_off(rebuilt(c, movie)) == data_area_off(c),
        row_offset(rebuilt(c, movie), 0) == row_offset(c, 0),
        row_size(rebuilt(c, movie), 0) == movie.len(),
        rebuilt(c, movie).subrange(0, 28) == c.subrange(0, 28),
        rebuilt(c, movie).subrange(32, data_area_off(c) as int) == c.subrange(
            32,
            data_area_off(c) as int,
        ),
        spliced(c, movie).len() == data_area_off(c) + movie.len(),
        spliced(c, movie).subrange(
            data_area_off(c) as int,
            spliced(c, movie).len() as int,
        ) == movie,
{
    law_rebuilt_layout(c, movie);
    lemma_rebuilt_words(c, movie);
    lemma_low32(movie.len());
    let r = rebuilt(c, movie);
    let off = data_area_off(c) as int;
    assert(off >= 32);
    assert(r.len() >= 40);
    assert(data_area_off(r) + row_size(r, 0) + 8 == r.len());
    assert(is_movie_container(r)) by {
        reveal(is_movie_container);
    }
    assert(spliced(c, movie).subrange(off, off + movie.len()) =~= movie);
}

/// A container with the header of `c` is rebuilt like `c`.
proof fn lemma_same_header(c: Seq<u8>, r: Seq<u8>, movie: Seq<u8>)
    requires
        is_movie_container(r),
        data_area_off(r) == data_area_off(c),
        r.subrange(0, 28) == c.subrange(0, 28),
        r.subrange(32, data_area_off(c) as int) == c.subrange(32, data_area_off(c) as int),
    ensures
        rebuild_refusal(r) is None,
        header_covers_size(r),
        rebuilt(r, movie) == rebuilt(c, movie),
{
    reveal(is_movie_container);
}

/// Putting back the movie that a container already holds changes nothing, where the container's
/// `CSUM` trailer checks out and its movie starts the data area.
pub proof fn law_rebuild_with_own_movie(c: Seq<u8>)
    requires
        rebuild_refusal(c) is None,
        header_covers_size(c),
        row_offset(c, 0) == 0,
        csum_trailer(c) matches Some((stored, computed)) && stored == computed,
    ensures
        data_chunk(c) matches Some(movie) && rebuilt(c, movie) == c,
{
    let off = data_area_off(c) as int;
    let size = row_size(c, 0);
    assert(max_desc(c) >= 1);
    assert(first_data_row(c, 0));
    lemma_data_chunk(c, 0);
    let movie = c.subrange(off, off + size);
    assert(data_chunk(c) == Some(movie));
    assert(low32(movie.len()) == size);
    lemma_le_bytes_of_u32_le(c, 28);
    assert(spliced(c, movie) =~= c.subrange(0, c.len() - 8));
    lemma_le_bytes_of_u32_le(c, c.len() - 4);
    let sum = crc32(spliced(c, movie));
    assert(le_bytes(sum) == c.subrange(c.len() - 4, c.len() as int));
    assert(trailer(spliced(c, movie)) =~= c.subrange(c.len() - 8, c.len() as int)) by {
        assert(has_tag(c, c.len() - 8, 'C', 'S', 'U', 'M'));
    }
    assert(rebuilt(c, movie) =~= c);
}

/// The first four bytes are the name of the format.
pub open spec fn starts_ucfx(c: Seq<u8>) -> bool {
    c.len() >= 4 && c.subrange(0, 4) == seq![0x55u8, 0x43, 0x46, 0x58]
}

/// The four bytes at `at` spell `data`.
pub open spec fn data_tag_at(c: Seq<u8>, at: int) -> bool {
    0 <= at <= c.len() - 4 && c.subrange(at, at + 4) == seq![0x64u8, 0x61, 0x74, 0x61]
}

proof fn lemma_tags(c: Seq<u8>, at: int)
    ensures
        starts_ucfx(c) == is_ucfx(c),
        0 <= at <= c.len() - 4 ==> data_tag_at(c, at) == has_tag(c, at, 'd', 'a', 't', 'a'),
{
    if c.len() >= 4 {
        law_tag(c, 0, 'U', 'C', 'F', 'X');
    }
    if 0 <= at <= c.len() - 4 {
        law_tag(c, at, 'd', 'a', 't', 'a');
    }
}

/// Which containers take another movie: those of at least 32 bytes that start with `UCFX`, whose word
/// at 16 is 1, with `data` at 20, and whose words at 4 and 28 add up to eight bytes less than the
/// container. The others are refused for the first of these that fails, with the words at fault.
pub proof fn law_what_takes_a_movie(c: Seq<u8>)
    ensures
        c.len() < 32 || !starts_ucfx(c) <==> rebuild_refusal(c) == Some(ErrorView::NotUcfx),
        c.len() >= 32 && starts_ucfx(c) && (u32_le(c, 16) != 1 || !data_tag_at(c, 20))
            ==> rebuild_refusal(c) == Some(
            ErrorView::NotSimple {
                n_desc: u32_le(c, 16),
                tag: decoded_text(c.subrange(20, 24)),
            },
        ),
        c.len() >= 32 && starts_ucfx(c) && u32_le(c, 16) == 1 && data_tag_at(c, 20) && c.len()
            != u32_le(c, 4) + u32_le(c, 28) + 8 ==> rebuild_refusal(c) == Some(
            ErrorView::Layout {
                header: u32_le(c, 4),
                data: u32_le(c, 28),
                total: c.len() as usize,
            },
        ),
        c.len() >= 32 && starts_ucfx(c) && u32_le(c, 16) == 1 && data_tag_at(c, 20) && c.len()
            == u32_le(c, 4) + u32_le(c, 28) + 8 <==> rebuild_refusal(c) is None,
        header_covers_size(c) <==> rebuild_refusal(c) is Some || u32_le(c, 4) >= 32,
{
    lemma_tags(c, 20);
}

/// Where a new movie stands: the container keeps its bytes but for the word at 28, which is the size of
/// the movie, and the bytes behind the header, which are the movie, `CSUM` and the checksum of all
/// that is before.
pub proof fn law_where_a_movie_stands(c: Seq<u8>, movie: Seq<u8>)
    requires
        rebuild_refusal(c) is None,
        header_covers_size(c),
    ensures
        ({
            let r = rebuilt(c, movie);
            let n = u32_le(c, 4) + movie.len();
            &&& r.len() == n + 8
            &&& forall|i: int| 0 <= i < u32_le(c, 4) && !(28 <= i < 32) ==> r[i] == c[i]
            &&& u32_le(r, 28) <= movie.len()
            &&& (movie.len() - u32_le(r, 28)) % 0x1_0000_0000 == 0
            &&& forall|i: int| 0 <= i < movie.len() ==> r[u32_le(c, 4) + i] == movie[i]
            &&& r.subrange(n, n + 4) == seq![0x43u8, 0x53, 0x55, 0x4D]
            &&& u32_le(r, n + 4) == crc32(r.subrange(0, n))
        }),
{
    law_what_takes_a_movie(c);
    law_rebuilt_layout(c, movie);
    law_low_part(movie.len());
    let r = rebuilt(c, movie);
    let off = u32_le(c, 4) as int;
    let n = off + movie.len();
    assert forall|i: int| 0 <= i < off && !(28 <= i < 32) implies r[i] == c[i] by {
        if i < 28 {
            assert(r.subrange(0, 28)[i] == c.subrange(0, 28)[i]);
        } else {
            assert(r.subrange(32, off)[i - 32] == c.subrange(32, off)[i - 32]);
        }
    }
    assert forall|i: int| 0 <= i < movie.len() implies r[off + i] == movie[i] by {
        assert(r.subrange(off, n)[i] == movie[i]);
    }
    law_tag(r, n, 'C', 'S', 'U', 'M');
    assert(r.subrange(0, n) =~= spliced(c, movie));
}

/// Descriptor `d` announces a `data` body: it is tagged so and has a body offset.
pub open spec fn announces_data(c: Seq<u8>, d: int) -> bool {
    data_tag_at(c, 20 + 20 * d) && u32_le(c, 20 + 20 * d + 4) != 0xFFFF_FFFF
}

/// The movie of a container: the body that its first `data` descriptor describes, counted from the
/// word at 4, or from 8 where that is 0, if it lies in the container. There is none where no
/// descriptor announces it, or where the announced descriptors have no room.
pub proof fn law_what_is_extracted(c: Seq<u8>)
    ensures
        c.len() < 20 || !starts_ucfx(c) || 20 + 20 * u32_le(c, 16) > c.len() ==> data_chunk(c) is None,
        forall|d: int|
            {
                &&& c.len() >= 20
                &&& starts_ucfx(c)
                &&& 20 + 20 * u32_le(c, 16) <= c.len()
                &&& 0 <= d < u32_le(c, 16)
                &&& #[trigger] announces_data(c, d)
                &&& forall|k: int| 0 <= k < d ==> !announces_data(c, k)
            } ==> {
                let start = if u32_le(c, 4) == 0 {
                    8
                } else {
                    u32_le(c, 4) as int
                } + u32_le(c, 20 + 20 * d + 4);
                let end = start + u32_le(c, 20 + 20 * d + 8);
                data_chunk(c) == if end <= c.len() {
                    Some(c.subrange(start, end))
                } else {
                    None
                }
            },
        (forall|d: int| 0 <= d < u32_le(c, 16) ==> !announces_data(c, d)) ==> data_chunk(c) is None,
{
    lemma_tags(c, 0);
    if c.len() >= 20 && starts_ucfx(c) && 20 + 20 * u32_le(c, 16) <= c.len() {
        assert(has_rows(c));
        assert forall|d: int| 0 <= d < u32_le(c, 16) implies announces_data(c, d) == is_data_row(
            c,
            d,
        ) by {
            assert(row_at(d) + 20 <= c.len());
            lemma_tags(c, row_at(d));
        }
        assert forall|d: int|
            0 <= d < u32_le(c, 16) && #[trigger] announces_data(c, d) && (forall|k: int|
                0 <= k < d ==> !announces_data(c, k)) implies first_data_row(c, d) && (data_chunk(c)
            == if body_end(c, d) <= c.len() {
            Some(c.subrange(body_start(c, d), body_end(c, d)))
        } else {
            None
        }) by {
            assert forall|k: int| 0 <= k < d implies !is_data_row(c, k) by {
                assert(!announces_data(c, k));
            }
            assert(first_data_row(c, d));
            lemma_data_chunk(c, d);
        }
        if forall|d: int| 0 <= d < u32_le(c, 16) ==> !announces_data(c, d) {
            assert forall|d: int| !first_data_row(c, d) by {
                if 0 <= d < u32_le(c, 16) {
                    assert(!announces_data(c, d));
                }
            }
        }
    } else if c.len() >= 20 && starts_ucfx(c) {
        assert(!has_rows(c));
    }
}

/// A trailer is there where the last eight bytes start with `CSUM`. It stores the last word, and is
/// held against the checksum of all but these eight bytes.
pub proof fn law_trailer(c: Seq<u8>)
    ensures
        csum_trailer(c) is Some <==> c.len() >= 8 && c.subrange(c.len() - 8, c.len() - 4) == seq![
            0x43u8,
            0x53,
            0x55,
            0x4D,
        ],
        csum_trailer(c) matches Some((stored, computed)) ==> stored == u32_le(c, c.len() - 4)
            && computed == crc32(c.subrange(0, c.len() - 8)),
{
    if c.len() >= 8 {
        law_tag(c, c.len() - 8, 'C', 'S', 'U', 'M');
    }
}

/// Where addresses have 64 bits, every container can be asked for its movie. Elsewhere every container
/// can whose offsets stay below the largest address.
pub proof fn law_what_can_be_extracted(c: Seq<u8>)
    ensures
        usize::MAX >= 0x10_0000_0000 ==> data_chunk_addressable(c),
        (forall|d: int|
            0 <= d < u32_le(c, 16) ==> u32_le(c, 4) + 8 + #[trigger] u32_le(c, 20 + 20 * d + 4)
                + u32_le(c, 20 + 20 * d + 8) <= usize::MAX) ==> data_chunk_addressable(c),
{
    if forall|d: int|
        0 <= d < u32_le(c, 16) ==> u32_le(c, 4) + 8 + #[trigger] u32_le(c, 20 + 20 * d + 4)
            + u32_le(c, 20 + 20 * d + 8) <= usize::MAX {
        assert forall|d: int| #[trigger] first_data_row(c, d) implies body_end(c, d)
            <= usize::MAX by {
            assert(u32_le(c, 20 + 20 * d + 4) == row_offset(c, d));
        }
    }
}

/// A container whose movie would end behind the largest address cannot be asked for it.
pub proof fn law_what_cannot_be_extracted(c: Seq<u8>, d: int)
    requires
        c.len() >= 20,
        starts_ucfx(c),
        20 + 20 * u32_le(c, 16) <= c.len(),
        0 <= d < u32_le(c, 16),
        announces_data(c, d),
        forall|k: int| 0 <= k < d ==> !announces_data(c, k),
    ensures
        data_chunk_addressable(c) <==> if u32_le(c, 4) == 0 {
            8
        } else {
            u32_le(c, 4) as int
        } + u32_le(c, 20 + 20 * d + 4) + u32_le(c, 20 + 20 * d + 8) <= usize::MAX,
{
    lemma_tags(c, 0);
    assert(has_rows(c));
    assert forall|k: int| 0 <= k < u32_le(c, 16) implies announces_data(c, k) == is_data_row(
        c,
        k,
    ) by {
        assert(row_at(k) + 20 <= c.len());
        lemma_tags(c, row_at(k));
    }
    assert forall|k: int| 0 <= k < d implies !is_data_row(c, k) by {
        assert(!announces_data(c, k));
    }
    assert(first_data_row(c, d));
    assert forall|e: int| #[trigger] first_data_row(c, e) implies e == d by {
        assert(!(e < d) && !(d < e));
    }
}

} // verus!
