//! The texts of the status bar and the window title.

use vstd::prelude::*;
use vstd::string::StringExecFns;

use super::core_data::CoreData;
use super::load::string_views;
use crate::text::{decimal, push_decimal};

verus! {

/// The texts with a separator between.
pub open spec fn separated(texts: Seq<Seq<char>>, by: Seq<char>) -> Seq<char>
    decreases texts.len(),
{
    if texts.len() == 0 {
        Seq::empty()
    } else if texts.len() == 1 {
        texts[0]
    } else {
        separated(texts.drop_last(), by) + by + texts.last()
    }
}

fn join(texts: &[String], by: &str) -> (s: String)
    ensures
        s@ == separated(string_views(texts@), by@),
{
    let ghost all = string_views(texts@);
    let mut s: String = String::new();
    let mut i: usize = 0;
    assert(s@ =~= separated(all.take(0), by@));
    while i < texts.len()
        invariant
            i <= texts@.len(),
            all == string_views(texts@),
            s@ == separated(all.take(i as int), by@),
        decreases texts@.len() - i,
    {
        if i > 0 {
            s.append(by);
        }
        s.append(texts[i].as_str());
        proof {
            let now = all.take(i + 1);
            assert(now.drop_last() =~= all.take(i as int));
            assert(now.last() == texts@[i as int]@);
            if i == 0 {
                assert(s@ =~= texts@[0]@);
            }
        }
        i = i + 1;
    }
    assert(all.take(i as int) =~= all);
    s
}

/// What the status bar says of a loaded file.
pub open spec fn loaded_line(name: Seq<char>, c: CoreData, warnings: Seq<Seq<char>>) -> Seq<char> {
    let blocks = c.block_starts@.len();
    let line = "Loaded "@ + name + "  ·  "@ + decimal(c.info.width as nat) + "×"@ + decimal(
        c.info.height as nat,
    ) + ", bpp="@ + decimal(c.info.bpp as nat) + ", "@ + decimal(blocks) + (if blocks == 1 {
        " DEFLATE block"@
    } else {
        " DEFLATE blocks"@
    });
    if warnings.len() == 0 {
        line
    } else {
        line + "  ·  warning: "@ + separated(warnings, "; "@)
    }
}

/// Status names the file and its broad shape; per-class counts (Literals /
/// Backrefs / All) live in the left panel so the status bar doesn't duplicate
/// them.
pub fn loaded_text(name: &str, c: &CoreData, warnings: &[String]) -> (s: String)
    ensures
        s@ == loaded_line(name@, *c, string_views(warnings@)),
{
    let mut s: String = String::from_str("Loaded ");
    s.append(name);
    s.append("  ·  ");
    push_decimal(&mut s, c.info.width as u64);
    s.append("×");
    push_decimal(&mut s, c.info.height as u64);
    s.append(", bpp=");
    push_decimal(&mut s, c.info.bpp as u64);
    s.append(", ");
    push_decimal(&mut s, c.num_blocks() as u64);
    if c.num_blocks() == 1 {
        s.append(" DEFLATE block");
    } else {
        s.append(" DEFLATE blocks");
    }
    if warnings.len() > 0 {
        s.append("  ·  warning: ");
        s.append(join(warnings, "; ").as_str());
    }
    s
}

/// The window title: the file's name and a mark for unsaved edits.
pub open spec fn title_of(name: Option<Seq<char>>, dirty: bool) -> Seq<char> {
    match name {
        Some(name) => name + (if dirty {
            " •"@
        } else {
            ""@
        }) + "  —  Compressed PNG Editor"@,
        None => "Compressed PNG Editor"@,
    }
}

/// The window title.
pub fn window_title(name: Option<&str>, dirty: bool) -> (s: String)
    ensures
        s@ == title_of(
            match name {
                Some(name) => Some(name@),
                None => None,
            },
            dirty,
        ),
{
    match name {
        Some(name) => {
            let mut s: String = String::from_str(name);
            if dirty {
                s.append(" •");
            } else {
                s.append("");
            }
            s.append("  —  Compressed PNG Editor");
            s
        },
        None => String::from_str("Compressed PNG Editor"),
    }
}

} // verus!
