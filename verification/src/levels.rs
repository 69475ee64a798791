use crate::common::{Error, HeaderId, Leaf, Level};
use crate::table::{NodeTable, TableView};
use vstd::prelude::*;

verus! {

/// The number of variables at and below a level; none below no level.
pub open spec fn expected(level: Option<Level>) -> nat {
    match level {
        Some(l) => l as nat + 1,
        None => 0,
    }
}

/// Each of the `k` lowest levels has a header.
pub open spec fn levels_named<L>(dd: TableView<L>, k: nat) -> bool {
    forall|l: Level| l < k ==> #[trigger] dd.has_level(l)
}

/// `by_level` gives for each of its levels the header that stands there.
pub open spec fn headers_by_level<L>(dd: TableView<L>, by_level: Seq<HeaderId>) -> bool {
    forall|l: int|
        0 <= l < by_level.len() ==> {
            &&& (#[trigger] by_level[l]) < dd.headers.len()
            &&& dd.headers[by_level[l] as int].level == l
            &&& dd.header_at(l as Level) == by_level[l]
        }
}

/// In a well formed table the header at a level is the only one there.
pub proof fn lemma_header_at<L>(dd: TableView<L>, l: Level, h: HeaderId)
    requires
        dd.wf(),
        h < dd.headers.len(),
        dd.headers[h as int].level == l,
    ensures
        dd.has_level(l),
        dd.header_at(l) == h,
{
    assert(dd.has_level(l));
    let c = dd.header_at(l);
    assert(c < dd.headers.len() && dd.headers[c as int].level == l);
    if c != h {
        assert(dd.headers[c as int].level != dd.headers[h as int].level);
    }
}

/// The header of each level up to `top`, the lowest level first. Fails
/// with `MissingHeader` where one of these levels has no header.
pub fn level_headers<L: Leaf>(dd: &NodeTable<L>, top: Option<Level>) -> (r: Result<
    Vec<HeaderId>,
    Error,
>)
    requires
        dd@.wf(),
    ensures
        match r {
            Ok(by_level) => {
                &&& by_level@.len() == expected(top)
                &&& levels_named(dd@, expected(top))
                &&& headers_by_level(dd@, by_level@)
            },
            Err(e) => e == Error::MissingHeader && !levels_named(dd@, expected(top)),
        },
{
    let mut by_level: Vec<HeaderId> = Vec::new();
    match top {
        None => {},
        Some(last) => {
            let mut l: usize = 0;
            let mut done = false;
            while !done
                invariant
                    dd@.wf(),
                    top == Some(last),
                    l <= last,
                    !done ==> by_level@.len() == l,
                    done ==> by_level@.len() == last + 1,
                    forall|lv: Level| lv < by_level@.len() ==> #[trigger] dd@.has_level(lv),
                    headers_by_level(dd@, by_level@),
                decreases (last - l) + (if done { 0int } else { 1int }),
            {
                match dd.find_level(l) {
                    Some(h) => {
                        proof {
                            lemma_header_at(dd@, l, h);
                        }
                        by_level.push(h);
                    },
                    None => {
                        assert(!dd@.has_level(l) && l < expected(top));
                        return Err(Error::MissingHeader);
                    },
                }
                if l == last {
                    done = true;
                } else {
                    l = l + 1;
                }
            }
        },
    }
    Ok(by_level)
}

} // verus!
