//! What a caller asks of a listing: page size and where to resume.

use vstd::prelude::*;
use crate::seek::{decode_seek, encode_spec, tag_of, is_cursor_text, InvalidCursor, Seek, SeekPayload};

verus! {

/// Which page the caller asks for.
#[derive(Clone, Debug, PartialEq, Eq)]
pub enum Page {
    /// No position given: start at the top.
    Unspecified,
    /// A page number; listings of versions do not support it.
    Numeric(u32),
    /// Resume after the position that the cursor text names.
    Seek(String),
}

/// Why a listing could not be produced.
#[derive(Clone, Copy, Debug, PartialEq, Eq, Structural)]
pub enum ListError {
    /// The cursor is malformed or belongs to the other ordering.
    InvalidCursor,
    /// Page numbers were asked for where only cursors are supported.
    NumericPagingUnsupported,
    /// A page size of zero.
    InvalidPerPage,
}

/// Page size and position of a paginated listing.
#[derive(Clone, Debug, PartialEq, Eq)]
pub struct PaginationOptions {
    pub page: Page,
    pub per_page: u32,
}

impl PaginationOptions {
    /// Options for cursor-only pagination. A page number is refused, as is a
    /// page size of zero.
    pub fn seek_only(per_page: u32, page: Page) -> (r: Result<PaginationOptions, ListError>)
        ensures
            page is Numeric ==> r == Err::<PaginationOptions, ListError>(
                ListError::NumericPagingUnsupported,
            ),
            !(page is Numeric) && per_page == 0 ==> r == Err::<PaginationOptions, ListError>(
                ListError::InvalidPerPage,
            ),
            !(page is Numeric) && per_page > 0 ==> r == Ok::<PaginationOptions, ListError>(
                (PaginationOptions { page, per_page }),
            ),
    {
        match page {
            Page::Numeric(_) => Err(ListError::NumericPagingUnsupported),
            _ => {
                if per_page == 0 {
                    Err(ListError::InvalidPerPage)
                } else {
                    Ok(PaginationOptions { page, per_page })
                }
            },
        }
    }
}

/// The cursor that a page carries, as decoded for the ordering `tag`.
pub open spec fn cursor_of(page: Page, tag: Seek) -> Option<SeekPayload> {
    match page {
        Page::Seek(t) => Some(choose|p: SeekPayload| tag_of(p) == tag && encode_spec(p) == t@),
        _ => None,
    }
}

/// The page carries a cursor that does not decode for the ordering `tag`.
pub open spec fn bad_cursor(page: Page, tag: Seek) -> bool {
    match page {
        Page::Seek(t) => !is_cursor_text(t@, tag),
        _ => false,
    }
}

impl Seek {
    /// The position after which a page starts: `None` without a cursor.
    pub fn after(&self, page: &Page) -> (r: Result<Option<SeekPayload>, InvalidCursor>)
        ensures
            bad_cursor(*page, *self) <==> r is Err,
            r matches Ok(c) ==> c == cursor_of(*page, *self),
            r matches Ok(Some(p)) ==> tag_of(p) == *self,
    {
        match page {
            Page::Seek(t) => {
                match decode_seek(t.as_str(), *self) {
                    Ok(p) => {
                        proof {
                            crate::seek::lemma_encode_injective(
                                p,
                                choose|q: SeekPayload| tag_of(q) == *self && encode_spec(q) == t@,
                            );
                        }
                        Ok(Some(p))
                    },
                    Err(e) => Err(e),
                }
            },
            _ => Ok(None),
        }
    }
}

} // verus!
