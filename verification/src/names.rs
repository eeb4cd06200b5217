//! The names that the merge reads and writes in dictionaries.

use crate::object::ascii;
use crate::object::bytes_of;
use vstd::prelude::*;

verus! {

/// The key under which a dictionary names its kind.
pub fn kind() -> (name: Vec<u8>)
    ensures
        name@ == bytes_of("Type"@),
{
    proof {
        reveal_strlit("Type");
    }
    ascii("Type")
}

/// The kind of a catalog.
pub fn catalog() -> (name: Vec<u8>)
    ensures
        name@ == bytes_of("Catalog"@),
{
    proof {
        reveal_strlit("Catalog");
    }
    ascii("Catalog")
}

/// The kind of a pages root, and the key under which a catalog names one.
pub fn pages() -> (name: Vec<u8>)
    ensures
        name@ == bytes_of("Pages"@),
{
    proof {
        reveal_strlit("Pages");
    }
    ascii("Pages")
}

/// The kind of a page.
pub fn page() -> (name: Vec<u8>)
    ensures
        name@ == bytes_of("Page"@),
{
    proof {
        reveal_strlit("Page");
    }
    ascii("Page")
}

/// The kind of the root of a navigation tree, and the key under which a catalog names one.
pub fn outlines() -> (name: Vec<u8>)
    ensures
        name@ == bytes_of("Outlines"@),
{
    proof {
        reveal_strlit("Outlines");
    }
    ascii("Outlines")
}

/// The kind of a node of a navigation tree.
pub fn outline() -> (name: Vec<u8>)
    ensures
        name@ == bytes_of("Outline"@),
{
    proof {
        reveal_strlit("Outline");
    }
    ascii("Outline")
}

/// The key of the references to the children of a pages root.
pub fn kids() -> (name: Vec<u8>)
    ensures
        name@ == bytes_of("Kids"@),
{
    proof {
        reveal_strlit("Kids");
    }
    ascii("Kids")
}

/// The key of a number of pages or of bookmarks.
pub fn count() -> (name: Vec<u8>)
    ensures
        name@ == bytes_of("Count"@),
{
    proof {
        reveal_strlit("Count");
    }
    ascii("Count")
}

/// The key of the reference to a parent.
pub fn parent() -> (name: Vec<u8>)
    ensures
        name@ == bytes_of("Parent"@),
{
    proof {
        reveal_strlit("Parent");
    }
    ascii("Parent")
}

/// The key under which a trailer names the catalog.
pub fn root() -> (name: Vec<u8>)
    ensures
        name@ == bytes_of("Root"@),
{
    proof {
        reveal_strlit("Root");
    }
    ascii("Root")
}

/// The key of the reference to a first child.
pub fn first() -> (name: Vec<u8>)
    ensures
        name@ == bytes_of("First"@),
{
    proof {
        reveal_strlit("First");
    }
    ascii("First")
}

/// The key of the reference to a last child.
pub fn last() -> (name: Vec<u8>)
    ensures
        name@ == bytes_of("Last"@),
{
    proof {
        reveal_strlit("Last");
    }
    ascii("Last")
}

/// The key of the reference to the following sibling.
pub fn next() -> (name: Vec<u8>)
    ensures
        name@ == bytes_of("Next"@),
{
    proof {
        reveal_strlit("Next");
    }
    ascii("Next")
}

/// The key of the reference to the preceding sibling.
pub fn prev() -> (name: Vec<u8>)
    ensures
        name@ == bytes_of("Prev"@),
{
    proof {
        reveal_strlit("Prev");
    }
    ascii("Prev")
}

/// The key of the title of a bookmark.
pub fn title() -> (name: Vec<u8>)
    ensures
        name@ == bytes_of("Title"@),
{
    proof {
        reveal_strlit("Title");
    }
    ascii("Title")
}

/// The key of the destination of a bookmark.
pub fn dest() -> (name: Vec<u8>)
    ensures
        name@ == bytes_of("Dest"@),
{
    proof {
        reveal_strlit("Dest");
    }
    ascii("Dest")
}

/// The name of the view that fits a page into the window.
pub fn fit() -> (name: Vec<u8>)
    ensures
        name@ == bytes_of("Fit"@),
{
    proof {
        reveal_strlit("Fit");
    }
    ascii("Fit")
}

/// The key of the color of a bookmark.
pub fn color() -> (name: Vec<u8>)
    ensures
        name@ == bytes_of("C"@),
{
    proof {
        reveal_strlit("C");
    }
    ascii("C")
}

/// The word that the title of every bookmark begins with.
pub fn page_label() -> (name: Vec<u8>)
    ensures
        name@ == bytes_of("Page_"@),
{
    proof {
        reveal_strlit("Page_");
    }
    ascii("Page_")
}

} // verus!
