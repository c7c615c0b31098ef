//! Why a movie could not be found, extracted or re-injected.
use vstd::prelude::*;
use vstd::string::StringExecFns;

use crate::strings::{format_debug, quoted_text};
use crate::text::{decimal, hex8, push_decimal, push_hex8};

verus! {

/// A refused request.
#[derive(Debug)]
pub enum Error {
    /// No asset of this name is listed in the archive.
    NotInAset { name: String, hash: u32 },
    /// The block that the archive names for an asset has no entry for it.
    NotInBlock { hash: u32, block_index: usize },
    /// The container holds no `data` chunk.
    NoDataChunk,
    /// The container does not start like a UCFX container.
    NotUcfx,
    /// The container is not a single `data` descriptor.
    NotSimple { n_desc: u32, tag: String },
    /// Header, movie and trailer do not add up to the container.
    Layout { header: u32, data: u32, total: usize },
    /// The block could not be compressed.
    Sges(String),
    /// No block path contains the given text.
    NoSuchPath(String),
    /// Block numbers have sixteen bits, and this is more.
    NoSuchBlock { index: usize },
    /// Neither a block index nor a block name was given.
    NoTarget,
    /// The existing patch archive could not be read.
    Merge(String),
}

/// An [`Error`] with its strings as character sequences.
pub enum ErrorView {
    NotInAset { name: Seq<char>, hash: u32 },
    NotInBlock { hash: u32, block_index: usize },
    NoDataChunk,
    NotUcfx,
    NotSimple { n_desc: u32, tag: Seq<char> },
    Layout { header: u32, data: u32, total: usize },
    Sges(Seq<char>),
    NoSuchPath(Seq<char>),
    NoSuchBlock { index: usize },
    NoTarget,
    Merge(Seq<char>),
}

impl View for Error {
    type V = ErrorView;

    open spec fn view(&self) -> ErrorView {
        match self {
            Error::NotInAset { name, hash } => ErrorView::NotInAset { name: name@, hash: *hash },
            Error::NotInBlock { hash, block_index } => ErrorView::NotInBlock {
                hash: *hash,
                block_index: *block_index,
            },
            Error::NoDataChunk => ErrorView::NoDataChunk,
            Error::NotUcfx => ErrorView::NotUcfx,
            Error::NotSimple { n_desc, tag } => ErrorView::NotSimple { n_desc: *n_desc, tag: tag@ },
            Error::Layout { header, data, total } => ErrorView::Layout {
                header: *header,
                data: *data,
                total: *total,
            },
            Error::Sges(detail) => ErrorView::Sges(detail@),
            Error::NoSuchPath(name) => ErrorView::NoSuchPath(name@),
            Error::NoSuchBlock { index } => ErrorView::NoSuchBlock { index: *index },
            Error::NoTarget => ErrorView::NoTarget,
            Error::Merge(detail) => ErrorView::Merge(detail@),
        }
    }
}

/// The one-line explanation of an error.
pub open spec fn error_text(error: ErrorView) -> Seq<char> {
    match error {
        ErrorView::NotInAset { name, hash } => "'"@ + name + "' (0x"@ + hex8(hash)
            + ") not in this WAD's ASET"@,
        ErrorView::NotInBlock { hash, block_index } => "0x"@ + hex8(hash)
            + " not found in block "@ + decimal(block_index as nat) + " entry table"@,
        ErrorView::NoDataChunk => "container has no `data` chunk (not a movie?)"@,
        ErrorView::NotUcfx => "original container is not UCFX"@,
        ErrorView::NotSimple { n_desc, tag } => "not a simple movie container (n_desc="@
            + decimal(n_desc as nat) + ", tag="@ + quoted_text(tag) + "); rewrap unsupported"@,
        ErrorView::Layout { header, data, total } => "unexpected layout: header "@
            + decimal(header as nat) + " + data "@ + decimal(data as nat) + " + CSUM 8 != "@
            + decimal(total as nat),
        ErrorView::Sges(detail) => "sges: "@ + detail,
        ErrorView::NoSuchPath(name) => "no block path contains '"@ + name + "'"@,
        ErrorView::NoSuchBlock { index } => "decompress block "@ + decimal(index as nat)
            + ": block_index "@ + decimal(index as nat) + " > 65535"@,
        ErrorView::NoTarget => "need --block-index or --block-name"@,
        ErrorView::Merge(detail) => detail,
    }
}

impl Error {
    /// The one-line explanation that is shown to the user.
    pub fn message(&self) -> (text: String)
        ensures
            text@ == error_text(self@),
    {
        let mut text = String::new();
        assert(text@ + error_text(self@) =~= error_text(self@));
        match self {
            Error::NotInAset { name, hash } => {
                text.append("'");
                text.append(name.as_str());
                text.append("' (0x");
                push_hex8(&mut text, *hash);
                text.append(") not in this WAD's ASET");
            },
            Error::NotInBlock { hash, block_index } => {
                text.append("0x");
                push_hex8(&mut text, *hash);
                text.append(" not found in block ");
                push_decimal(&mut text, *block_index as u64);
                text.append(" entry table");
            },
            Error::NoDataChunk => {
                text.append("container has no `data` chunk (not a movie?)");
            },
            Error::NotUcfx => {
                text.append("original container is not UCFX");
            },
            Error::NotSimple { n_desc, tag } => {
                text.append("not a simple movie container (n_desc=");
                push_decimal(&mut text, *n_desc as u64);
                text.append(", tag=");
                text.append(format_debug(tag.as_str()).as_str());
                text.append("); rewrap unsupported");
            },
            Error::Layout { header, data, total } => {
                text.append("unexpected layout: header ");
                push_decimal(&mut text, *header as u64);
                text.append(" + data ");
                push_decimal(&mut text, *data as u64);
                text.append(" + CSUM 8 != ");
                push_decimal(&mut text, *total as u64);
            },
            Error::Sges(detail) => {
                text.append("sges: ");
                text.append(detail.as_str());
            },
            Error::NoSuchPath(name) => {
                text.append("no block path contains '");
                text.append(name.as_str());
                text.append("'");
            },
            Error::NoSuchBlock { index } => {
                text.append("decompress block ");
                push_decimal(&mut text, *index as u64);
                text.append(": block_index ");
                push_decimal(&mut text, *index as u64);
                text.append(" > 65535");
            },
            Error::NoTarget => {
                text.append("need --block-index or --block-name");
            },
            Error::Merge(detail) => {
                text.append(detail.as_str());
            },
        }
        assert(text@ =~= error_text(self@));
        text
    }
}

/// What is said: an asset that is not listed is named with its hash.
pub proof fn law_text_of_not_listed(name: Seq<char>, hash: u32)
    ensures
        ({
            let text = error_text(ErrorView::NotInAset { name, hash });
            let p1 = 1int;
            let p2 = p1 + name.len();
            let p3 = p2 + 5;
            let p4 = p3 + hex8(hash).len();
            &&& text.len() == 1 + name.len() + 5 + hex8(hash).len() + 24
            &&& text.subrange(0, p1) == "'"@
            &&& text.subrange(p1, p2) == name
            &&& text.subrange(p2, p3) == "' (0x"@
            &&& text.subrange(p3, p4) == hex8(hash)
            &&& text.subrange(p4, text.len() as int) == ") not in this WAD's ASET"@
        }),
{
    reveal_strlit("'");
    reveal_strlit("' (0x");
    reveal_strlit(") not in this WAD's ASET");
    let text = error_text(ErrorView::NotInAset { name, hash });
    let p1 = 1int;
    let p2 = p1 + name.len();
    let p3 = p2 + 5;
    let p4 = p3 + hex8(hash).len();
    assert(text.subrange(0, p1) =~= "'"@);
    assert(text.subrange(p1, p2) =~= name);
    assert(text.subrange(p2, p3) =~= "' (0x"@);
    assert(text.subrange(p3, p4) =~= hex8(hash));
    assert(text.subrange(p4, text.len() as int) =~= ") not in this WAD's ASET"@);
}

/// What is said: an asset that its block does not hold is told by its hash and the number of the block.
pub proof fn law_text_of_not_in_block(hash: u32, block_index: usize)
    ensures
        ({
            let text = error_text(ErrorView::NotInBlock { hash, block_index });
            let p1 = 2int;
            let p2 = p1 + hex8(hash).len();
            let p3 = p2 + 20;
            let p4 = p3 + decimal(block_index as nat).len();
            &&& text.len() == 2 + hex8(hash).len() + 20 + decimal(block_index as nat).len() + 12
            &&& text.subrange(0, p1) == "0x"@
            &&& text.subrange(p1, p2) == hex8(hash)
            &&& text.subrange(p2, p3) == " not found in block "@
            &&& text.subrange(p3, p4) == decimal(block_index as nat)
            &&& text.subrange(p4, text.len() as int) == " entry table"@
        }),
{
    reveal_strlit("0x");
    reveal_strlit(" not found in block ");
    reveal_strlit(" entry table");
    let text = error_text(ErrorView::NotInBlock { hash, block_index });
    let p1 = 2int;
    let p2 = p1 + hex8(hash).len();
    let p3 = p2 + 20;
    let p4 = p3 + decimal(block_index as nat).len();
    assert(text.subrange(0, p1) =~= "0x"@);
    assert(text.subrange(p1, p2) =~= hex8(hash));
    assert(text.subrange(p2, p3) =~= " not found in block "@);
    assert(text.subrange(p3, p4) =~= decimal(block_index as nat));
    assert(text.subrange(p4, text.len() as int) =~= " entry table"@);
}

/// What is said: a container that takes no movie is told by its number of descriptors and its first tag, in quotes.
pub proof fn law_text_of_not_simple(n_desc: u32, tag: Seq<char>)
    ensures
        ({
            let text = error_text(ErrorView::NotSimple { n_desc, tag });
            let p1 = 37int;
            let p2 = p1 + decimal(n_desc as nat).len();
            let p3 = p2 + 6;
            let p4 = p3 + quoted_text(tag).len();
            &&& text.len() == 37 + decimal(n_desc as nat).len() + 6 + quoted_text(tag).len() + 21
            &&& text.subrange(0, p1) == "not a simple movie container (n_desc="@
            &&& text.subrange(p1, p2) == decimal(n_desc as nat)
            &&& text.subrange(p2, p3) == ", tag="@
            &&& text.subrange(p3, p4) == quoted_text(tag)
            &&& text.subrange(p4, text.len() as int) == "); rewrap unsupported"@
        }),
{
    reveal_strlit("not a simple movie container (n_desc=");
    reveal_strlit(", tag=");
    reveal_strlit("); rewrap unsupported");
    let text = error_text(ErrorView::NotSimple { n_desc, tag });
    let p1 = 37int;
    let p2 = p1 + decimal(n_desc as nat).len();
    let p3 = p2 + 6;
    let p4 = p3 + quoted_text(tag).len();
    assert(text.subrange(0, p1) =~= "not a simple movie container (n_desc="@);
    assert(text.subrange(p1, p2) =~= decimal(n_desc as nat));
    assert(text.subrange(p2, p3) =~= ", tag="@);
    assert(text.subrange(p3, p4) =~= quoted_text(tag));
    assert(text.subrange(p4, text.len() as int) =~= "); rewrap unsupported"@);
}

/// What is said: a container that does not add up is told by its three lengths.
pub proof fn law_text_of_layout(header: u32, data: u32, total: usize)
    ensures
        ({
            let text = error_text(ErrorView::Layout { header, data, total });
            let p1 = 26int;
            let p2 = p1 + decimal(header as nat).len();
            let p3 = p2 + 8;
            let p4 = p3 + decimal(data as nat).len();
            let p5 = p4 + 13;
            &&& text.len() == 26 + decimal(header as nat).len() + 8 + decimal(data as nat).len() + 13 + decimal(total as nat).len()
            &&& text.subrange(0, p1) == "unexpected layout: header "@
            &&& text.subrange(p1, p2) == decimal(header as nat)
            &&& text.subrange(p2, p3) == " + data "@
            &&& text.subrange(p3, p4) == decimal(data as nat)
            &&& text.subrange(p4, p5) == " + CSUM 8 != "@
            &&& text.subrange(p5, text.len() as int) == decimal(total as nat)
        }),
{
    reveal_strlit("unexpected layout: header ");
    reveal_strlit(" + data ");
    reveal_strlit(" + CSUM 8 != ");
    let text = error_text(ErrorView::Layout { header, data, total });
    let p1 = 26int;
    let p2 = p1 + decimal(header as nat).len();
    let p3 = p2 + 8;
    let p4 = p3 + decimal(data as nat).len();
    let p5 = p4 + 13;
    assert(text.subrange(0, p1) =~= "unexpected layout: header "@);
    assert(text.subrange(p1, p2) =~= decimal(header as nat));
    assert(text.subrange(p2, p3) =~= " + data "@);
    assert(text.subrange(p3, p4) =~= decimal(data as nat));
    assert(text.subrange(p4, p5) =~= " + CSUM 8 != "@);
    assert(text.subrange(p5, text.len() as int) =~= decimal(total as nat));
}

/// What is said: a name that no path contains is given back.
pub proof fn law_text_of_no_such_path(name: Seq<char>)
    ensures
        ({
            let text = error_text(ErrorView::NoSuchPath(name));
            let p1 = 24int;
            let p2 = p1 + name.len();
            &&& text.len() == 24 + name.len() + 1
            &&& text.subrange(0, p1) == "no block path contains '"@
            &&& text.subrange(p1, p2) == name
            &&& text.subrange(p2, text.len() as int) == "'"@
        }),
{
    reveal_strlit("no block path contains '");
    reveal_strlit("'");
    let text = error_text(ErrorView::NoSuchPath(name));
    let p1 = 24int;
    let p2 = p1 + name.len();
    assert(text.subrange(0, p1) =~= "no block path contains '"@);
    assert(text.subrange(p1, p2) =~= name);
    assert(text.subrange(p2, text.len() as int) =~= "'"@);
}

/// What is said: a block that has no number is told by its index.
pub proof fn law_text_of_no_such_block(index: usize)
    ensures
        ({
            let text = error_text(ErrorView::NoSuchBlock { index });
            let p1 = 17int;
            let p2 = p1 + decimal(index as nat).len();
            let p3 = p2 + 14;
            let p4 = p3 + decimal(index as nat).len();
            &&& text.len() == 17 + decimal(index as nat).len() + 14 + decimal(index as nat).len() + 8
            &&& text.subrange(0, p1) == "decompress block "@
            &&& text.subrange(p1, p2) == decimal(index as nat)
            &&& text.subrange(p2, p3) == ": block_index "@
            &&& text.subrange(p3, p4) == decimal(index as nat)
            &&& text.subrange(p4, text.len() as int) == " > 65535"@
        }),
{
    reveal_strlit("decompress block ");
    reveal_strlit(": block_index ");
    reveal_strlit(" > 65535");
    let text = error_text(ErrorView::NoSuchBlock { index });
    let p1 = 17int;
    let p2 = p1 + decimal(index as nat).len();
    let p3 = p2 + 14;
    let p4 = p3 + decimal(index as nat).len();
    assert(text.subrange(0, p1) =~= "decompress block "@);
    assert(text.subrange(p1, p2) =~= decimal(index as nat));
    assert(text.subrange(p2, p3) =~= ": block_index "@);
    assert(text.subrange(p3, p4) =~= decimal(index as nat));
    assert(text.subrange(p4, text.len() as int) =~= " > 65535"@);
}

/// What is said where there is nothing to fill in, or where an outside refusal is passed on.
pub proof fn law_other_texts(detail: Seq<char>)
    ensures
        error_text(ErrorView::NoDataChunk) == "container has no `data` chunk (not a movie?)"@,
        error_text(ErrorView::NotUcfx) == "original container is not UCFX"@,
        error_text(ErrorView::NoTarget) == "need --block-index or --block-name"@,
        error_text(ErrorView::Merge(detail)) == detail,
        error_text(ErrorView::Sges(detail)).len() == 6 + detail.len(),
        error_text(ErrorView::Sges(detail)).subrange(0, 6) == "sges: "@,
        error_text(ErrorView::Sges(detail)).subrange(6, (6 + detail.len()) as int) == detail,
{
    reveal_strlit("sges: ");
    let text = error_text(ErrorView::Sges(detail));
    assert(text.subrange(0, 6) =~= "sges: "@);
    assert(text.subrange(6, (6 + detail.len()) as int) =~= detail);
}

/// An error is told as it is, with what it holds.
pub proof fn law_error_is_told_as_it_is(error: Error)
    ensures
        match error {
            Error::NotInAset { name, hash } => error@ == (ErrorView::NotInAset {
                name: name@,
                hash,
            }),
            Error::NotInBlock { hash, block_index } => error@ == (ErrorView::NotInBlock {
                hash,
                block_index,
            }),
            Error::NoDataChunk => error@ is NoDataChunk,
            Error::NotUcfx => error@ is NotUcfx,
            Error::NotSimple { n_desc, tag } => error@ == (ErrorView::NotSimple {
                n_desc,
                tag: tag@,
            }),
            Error::Layout { header, data, total } => error@ == (ErrorView::Layout {
                header,
                data,
                total,
            }),
            Error::Sges(detail) => error@ == ErrorView::Sges(detail@),
            Error::NoSuchPath(name) => error@ == ErrorView::NoSuchPath(name@),
            Error::NoSuchBlock { index } => error@ == (ErrorView::NoSuchBlock { index }),
            Error::NoTarget => error@ is NoTarget,
            Error::Merge(detail) => error@ == ErrorView::Merge(detail@),
        },
{
}

} // verus!
