//! The list of recently opened files shown on the welcome screen.
use vstd::prelude::*;

verus! {

/// How many recent files the list keeps.
pub const MAX_RECENT: usize = 8;

/// Keeps the entries that differ from `path`.
pub open spec fn other_than(path: Seq<char>) -> spec_fn(Seq<char>) -> bool {
    |p: Seq<char>| p != path
}

/// The recent list after opening `path`: it comes first, the other entries keep
/// their order, and only the first eight are kept.
pub open spec fn with_recent(list: Seq<Seq<char>>, path: Seq<char>) -> Seq<Seq<char>> {
    let l = seq![path] + list.filter(other_than(path));
    if l.len() > MAX_RECENT { l.take(MAX_RECENT as int) } else { l }
}

/// The paths of a list, as character sequences.
pub open spec fn paths_of(list: Seq<String>) -> Seq<Seq<char>> {
    list.map_values(|s: String| s@)
}

/// Moves `path` to the front of the recent list (adding it when new) and keeps
/// at most eight entries.
pub fn add_recent(list: &mut Vec<String>, path: &str)
    ensures
        paths_of(final(list)@) == with_recent(paths_of(old(list)@), path@),
{
    let ghost lv = paths_of(list@);
    let target = path.to_string();
    let mut out: Vec<String> = Vec::new();
    out.push(target.clone());
    let mut i: usize = 0;
    while i < list.len()
        invariant
            lv == paths_of(list@),
            target@ == path@,
            i <= list.len(),
            paths_of(out@) == seq![path@] + lv.take(i as int).filter(other_than(path@)),
        decreases list.len() - i,
    {
        let ghost before = out@;
        let ghost prev = lv.take(i as int).filter(other_than(path@));
        let differs = list[i] != target;
        if differs {
            let c = list[i].clone();
            out.push(c);
        }
        proof {
            reveal(Seq::filter);
            let t = lv.take(i + 1);
            assert(t.drop_last() =~= lv.take(i as int));
            assert(t.last() == list@[i as int]@);
            let f = t.filter(other_than(path@));
            assert(differs == (list@[i as int]@ != path@));
            if differs {
                assert(f == prev.push(list@[i as int]@));
                assert(paths_of(out@) =~= paths_of(before).push(list@[i as int]@));
            } else {
                assert(f == prev);
                assert(out@ == before);
            }
            assert(paths_of(out@) =~= seq![path@] + f);
        }
        i = i + 1;
    }
    assert(lv.take(i as int) =~= lv);
    let ghost full = out@;
    out.truncate(MAX_RECENT);
    proof {
        if full.len() > MAX_RECENT {
            assert(paths_of(out@) =~= paths_of(full).take(MAX_RECENT as int));
        } else {
            assert(paths_of(out@) =~= paths_of(full));
        }
    }
    *list = out;
}

} // verus!
