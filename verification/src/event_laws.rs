//! What is heard of an event stream, and what is made of it.

use vstd::prelude::*;

use crate::engine;
use crate::engine::Strategy;
use crate::fsevents;
use crate::fsevents::{Heard, Replay};
use crate::index::{IndexView, Mode};
use crate::path;
use crate::text;

verus! {

/// Whether the flags of an event say that the report is incomplete: directories to be scanned
/// anew, events dropped on either side, numbers that wrapped, a root that moved, and volumes
/// that come or go.
pub open spec fn incomplete(flags: u32) -> bool {
    ||| flags & 0x1 != 0
    ||| flags & 0x2 != 0
    ||| flags & 0x4 != 0
    ||| flags & 0x8 != 0
    ||| flags & 0x20 != 0
    ||| flags & 0x40 != 0
    ||| flags & 0x80 != 0
}

/// Nothing that was heard is forgotten. The mark that ends the history names no change; every
/// other event adds its path, and makes the history incomplete where it says so.
pub proof fn law_nothing_heard_is_forgotten(h: Heard, flags: u32, p: Option<Seq<char>>)
    ensures
        ({
            let n = h.after(flags, p);
            &&& h.dropped ==> n.dropped
            &&& h.history_done ==> n.history_done
            &&& h.paths.is_prefix_of(n.paths)
            &&& flags & 0x10 != 0 ==> n.history_done && n.paths == h.paths && n.dropped == h.dropped
            &&& flags & 0x10 == 0 ==> {
                &&& n.history_done == h.history_done
                &&& n.dropped == (h.dropped || incomplete(flags))
                &&& p matches Some(q) ==> n.paths == h.paths.push(q)
                &&& p is None ==> n.paths == h.paths
            }
        }),
{
    assert((flags & 0xef != 0) == (flags & 0x1 != 0 || flags & 0x2 != 0 || flags & 0x4 != 0 || flags
        & 0x8 != 0 || flags & 0x20 != 0 || flags & 0x40 != 0 || flags & 0x80 != 0))
        by (bit_vector);
}

/// A history that ended, of which nothing was dropped, from a position that the log reaches,
/// is reported: every path in it once, and no other.
pub proof fn law_complete_histories_are_reported(
    since: u64,
    current: u64,
    h: Heard,
    r: Replay,
    k: int,
)
    requires
        fsevents::replayed(since, current, Ok(h), r),
        0 < since <= current,
        h.history_done,
        !h.dropped,
    ensures
        r matches Replay::Changed(ps) && {
            &&& 0 <= k < h.paths.len() ==> exists|i: int|
                0 <= i < ps@.len() && path::same(#[trigger] ps@[i]@, h.paths[k])
            &&& 0 <= k < ps@.len() ==> h.paths.contains(ps@[k]@)
        },
{
    if let Replay::Changed(ps) = r {
        let all = text::strs(ps@);
        assert(fsevents::sorted_unique(h.paths, all));
        if 0 <= k < h.paths.len() {
            assert(fsevents::has_path(all, h.paths[k]));
            let i = choose|i: int| 0 <= i < all.len() && path::same(#[trigger] all[i], h.paths[k]);
            assert(path::same(ps@[i]@, h.paths[k]));
        }
        if 0 <= k < ps@.len() {
            assert(fsevents::first_text(h.paths, all[k]));
        }
    }
}

/// A history from no position, or from one that the log does not reach, is not reported.
pub proof fn law_unreachable_histories_are_not_reported(
    since: u64,
    current: u64,
    heard: Result<Heard, Seq<char>>,
    r: Replay,
)
    requires
        fsevents::replayed(since, current, heard, r),
        since == 0 || current < since || heard is Err,
    ensures
        r is Unavailable,
{
}

/// What a refresh did is told by its way, the reason for it, and how many directories changed.
pub proof fn law_refreshes_tell_what_they_did(s: Strategy)
    ensures
        match s {
            Strategy::Full(why) => engine::summary(s) == (Mode::Full, why@, 0usize),
            Strategy::Mtime(why) => engine::summary(s) == (Mode::Mtime, why@, 0usize),
            Strategy::Events(_, n) => {
                let (mode, why, changed) = engine::summary(s);
                &&& mode == Mode::Events
                &&& changed == n
                &&& text::decimal(n as nat).is_prefix_of(why)
                &&& n == 1 ==> "y changed since last scan"@.is_suffix_of(why)
                &&& n != 1 ==> "ies changed since last scan"@.is_suffix_of(why)
            },
        },
{
    if let Strategy::Events(_, n) = s {
        let why = engine::summary(s).1;
        let num = text::decimal(n as nat);
        let end = engine::plural_end(n);
        assert(why.take(num.len() as int) =~= num);
        let tail = end + " changed since last scan"@;
        assert(why =~= num + " director"@ + tail);
        assert(why.subrange(why.len() - tail.len(), why.len() as int) =~= tail);
        reveal_strlit("y");
        reveal_strlit("ies");
        reveal_strlit(" changed since last scan");
        reveal_strlit("y changed since last scan");
        reveal_strlit("ies changed since last scan");
        assert("y"@ + " changed since last scan"@ =~= "y changed since last scan"@);
        assert("ies"@ + " changed since last scan"@ =~= "ies changed since last scan"@);
    }
}

/// Of two indexes whose roots lie equally deep the later one answers.
pub proof fn law_later_index_answers(vs: Seq<IndexView>, p: Seq<char>, k: usize, j: int)
    requires
        engine::answering(vs, p, Some(k)),
        0 <= j < vs.len(),
        path::within(p, vs[j].root),
        path::comps(vs[j].root).len() == path::comps(vs[k as int].root).len(),
    ensures
        j <= k,
{
    assert(engine::covers(vs[j], p));
}

} // verus!
