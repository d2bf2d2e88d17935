//! Turning a read document into chart lanes: key mode, lanes, note counts.
use crate::document::{LaneObject, Position};
use crate::keymode::{keymode_number, keymode_of_number, spec_total_lanes, KeyMode};
use vstd::prelude::*;

verus! {

/// Number of lanes the reader keeps notes for.
pub const NOTE_LANE_SLOTS: usize = 20;

/// The chart's key mode: the `#PLAYER` selection, 7 keys when absent.
pub open spec fn chart_keymode(keymode: Option<u32>) -> KeyMode {
    let n = match keymode {
        Some(k) => k,
        None => 7,
    };
    match keymode_of_number(n) {
        Some(k) => k,
        None => KeyMode::Keys7,
    }
}

/// The chart's key mode from the document's key-mode number.
pub fn resolve_keymode(keymode: Option<u32>) -> (k: KeyMode)
    ensures
        k == chart_keymode(keymode),
{
    let n: u32 = match keymode {
        Some(k) => k,
        None => 7,
    };
    match KeyMode::try_from(n) {
        Ok(k) => k,
        Err(_) => KeyMode::Keys7,
    }
}

/// The chart's key mode is the one its key-mode number names: a chart of
/// 5, 7, 9, 10 or 14 keys gets the key mode of that number, which has that
/// many lanes; any other number, or none, gives 7 keys.
pub proof fn law_chart_keymode(n: u32)
    ensures
        (n == 5 || n == 7 || n == 9 || n == 10 || n == 14) ==> keymode_number(
            chart_keymode(Some(n)),
        ) == n && spec_total_lanes(chart_keymode(Some(n))) == n,
        !(n == 5 || n == 7 || n == 9 || n == 10 || n == 14) ==> chart_keymode(Some(n))
            == KeyMode::Keys7,
        chart_keymode(None) == KeyMode::Keys7,
{
}

/// Number of lanes of the chart: the key mode's lanes, at most the slots kept.
pub fn chart_lane_count(k: KeyMode) -> (n: usize)
    ensures
        n == (if spec_total_lanes(k) < NOTE_LANE_SLOTS {
            spec_total_lanes(k)
        } else {
            NOTE_LANE_SLOTS
        }),
{
    let t = k.total_lanes();
    if t < NOTE_LANE_SLOTS {
        t
    } else {
        NOTE_LANE_SLOTS
    }
}

/// The notes of `lane`, in file order.
pub open spec fn notes_in_lane(s: Seq<LaneObject>, lane: usize) -> Seq<LaneObject>
    decreases s.len(),
{
    if s.len() == 0 {
        Seq::empty()
    } else if s.last().lane == lane {
        notes_in_lane(s.drop_last(), lane).push(s.last())
    } else {
        notes_in_lane(s.drop_last(), lane)
    }
}

/// Number of notes in lanes below `n`.
pub open spec fn count_below(s: Seq<LaneObject>, n: usize) -> nat
    decreases s.len(),
{
    if s.len() == 0 {
        0
    } else {
        count_below(s.drop_last(), n) + if s.last().lane < n {
            1nat
        } else {
            0nat
        }
    }
}

/// The notes of one lane, in file order.
pub fn lane_notes(notes: &Vec<LaneObject>, lane: usize) -> (v: Vec<LaneObject>)
    ensures
        v@ == notes_in_lane(notes@, lane),
{
    let mut v: Vec<LaneObject> = Vec::new();
    let mut i: usize = 0;
    while i < notes.len()
        invariant
            i <= notes@.len(),
            v@ == notes_in_lane(notes@.subrange(0, i as int), lane),
        decreases notes@.len() - i,
    {
        assert(notes@.subrange(0, i + 1).drop_last() =~= notes@.subrange(0, i as int));
        if notes[i].lane == lane {
            v.push(notes[i]);
        }
        i += 1;
    }
    assert(notes@.subrange(0, notes@.len() as int) =~= notes@);
    v
}

proof fn lemma_count_below_len(s: Seq<LaneObject>, n: usize)
    ensures
        count_below(s, n) <= s.len(),
    decreases s.len(),
{
    if s.len() > 0 {
        lemma_count_below_len(s.drop_last(), n);
    }
}

/// Number of notes in lanes below `n`.
pub fn count_notes(notes: &Vec<LaneObject>, n: usize) -> (c: usize)
    ensures
        c == count_below(notes@, n),
{
    let mut c: usize = 0;
    let mut i: usize = 0;
    while i < notes.len()
        invariant
            i <= notes@.len(),
            c == count_below(notes@.subrange(0, i as int), n),
        decreases notes@.len() - i,
    {
        assert(notes@.subrange(0, i + 1).drop_last() =~= notes@.subrange(0, i as int));
        proof {
            lemma_count_below_len(notes@.subrange(0, i as int), n);
        }
        if notes[i].lane < n {
            c += 1;
        }
        i += 1;
    }
    assert(notes@.subrange(0, notes@.len() as int) =~= notes@);
    c
}

/// The notes counted below `n` lanes are those of the lanes `0..n`: adding
/// one lane adds exactly the notes of that lane.
pub proof fn law_count_adds_lanes(s: Seq<LaneObject>, n: usize)
    requires
        n < usize::MAX,
    ensures
        count_below(s, (n + 1) as usize) == count_below(s, n) + notes_in_lane(s, n).len(),
    decreases s.len(),
{
    if s.len() > 0 {
        law_count_adds_lanes(s.drop_last(), n);
    }
}

// ---------------------------------------------------------------------------
// Grid order of the notes of a lane
// ---------------------------------------------------------------------------

/// `a` lies strictly before `b` on the measure grid: in an earlier measure,
/// or in the same measure at a smaller fraction `index / resolution`
/// (compared by cross-multiplying).
pub open spec fn grid_before(a: Position, b: Position) -> bool {
    a.measure < b.measure || (a.measure == b.measure && a.index * b.resolution < b.index
        * a.resolution)
}

/// `x` inserted into `s` after every object that it does not lie before.
pub open spec fn insert_by_grid(s: Seq<LaneObject>, x: LaneObject) -> Seq<LaneObject>
    decreases s.len(),
{
    if s.len() > 0 && grid_before(x.position, s.last().position) {
        insert_by_grid(s.drop_last(), x).push(s.last())
    } else {
        s.push(x)
    }
}

/// `s` sorted by grid position; objects at the same place keep their order
/// in `s` (a stable sort).
pub open spec fn sort_by_grid(s: Seq<LaneObject>) -> Seq<LaneObject>
    decreases s.len(),
{
    if s.len() == 0 {
        Seq::empty()
    } else {
        insert_by_grid(sort_by_grid(s.drop_last()), s.last())
    }
}

/// No object of `s` lies before an earlier one.
pub open spec fn grid_sorted(s: Seq<LaneObject>) -> bool {
    forall|i: int, j: int|
        0 <= i < j < s.len() ==> !grid_before(#[trigger] s[j].position, #[trigger] s[i].position)
}

/// Whether `a` lies strictly before `b` on the measure grid.
pub fn is_grid_before(a: Position, b: Position) -> (r: bool)
    ensures
        r == grid_before(a, b),
{
    if a.measure != b.measure {
        return a.measure < b.measure;
    }
    let x: u128 = a.index as u128;
    let y: u128 = b.resolution as u128;
    let z: u128 = b.index as u128;
    let w: u128 = a.resolution as u128;
    assert(x * y <= u64::MAX * u64::MAX) by (nonlinear_arith)
        requires
            x <= u64::MAX,
            y <= u64::MAX,
    ;
    assert(z * w <= u64::MAX * u64::MAX) by (nonlinear_arith)
        requires
            z <= u64::MAX,
            w <= u64::MAX,
    ;
    x * y < z * w
}

/// `v` sorted by grid position, objects at the same place in their order in
/// `v`.
pub fn sort_notes(v: &Vec<LaneObject>) -> (r: Vec<LaneObject>)
    ensures
        r@ == sort_by_grid(v@),
{
    let mut r: Vec<LaneObject> = Vec::new();
    let mut i: usize = 0;
    while i < v.len()
        invariant
            i <= v@.len(),
            r@ == sort_by_grid(v@.subrange(0, i as int)),
            r@.len() == i,
        decreases v@.len() - i,
    {
        let x = v[i];
        proof {
            let p = v@.subrange(0, i + 1);
            assert(p.drop_last() =~= v@.subrange(0, i as int));
            assert(p.last() == x);
            lemma_insert_len(r@, x);
        }
        let ghost s = r@;
        r.push(x);
        let mut j: usize = i;
        assert(s.subrange(0, j as int) =~= s);
        assert(r@ =~= s.subrange(0, j as int) + seq![x] + s.subrange(j as int, s.len() as int));
        while j > 0 && is_grid_before(x.position, r[j - 1].position)
            invariant
                j <= s.len(),
                r@.len() == s.len() + 1,
                r@ == s.subrange(0, j as int) + seq![x] + s.subrange(j as int, s.len() as int),
                insert_by_grid(s, x) == insert_by_grid(s.subrange(0, j as int), x) + s.subrange(
                    j as int,
                    s.len() as int,
                ),
            decreases j,
        {
            let a = r[j - 1];
            assert(a == s[j - 1]);
            proof {
                let t = s.subrange(0, j as int);
                assert(t.drop_last() =~= s.subrange(0, j - 1));
                assert(t.last() == a);
                assert(insert_by_grid(t, x) == insert_by_grid(s.subrange(0, j - 1), x).push(a));
                assert(insert_by_grid(s.subrange(0, j - 1), x).push(a) + s.subrange(
                    j as int,
                    s.len() as int,
                ) =~= insert_by_grid(s.subrange(0, j - 1), x) + s.subrange(j - 1, s.len() as int));
            }
            r.set(j, a);
            r.set(j - 1, x);
            j -= 1;
            assert(r@ =~= s.subrange(0, j as int) + seq![x] + s.subrange(j as int, s.len() as int));
        }
        proof {
            let t = s.subrange(0, j as int);
            if j > 0 {
                assert(t.last() == s[j - 1]);
            }
            assert(insert_by_grid(t, x) == t.push(x));
            assert(t.push(x) + s.subrange(j as int, s.len() as int) =~= r@);
        }
        i += 1;
    }
    assert(v@.subrange(0, v@.len() as int) =~= v@);
    r
}

/// The notes of one lane in exact grid order, notes at the same place in
/// file order. This is the order of their beats computed exactly; a chart
/// that orders notes by rounded floating-point beats can differ where two
/// beats round to the same value.
pub fn sorted_lane_notes(notes: &Vec<LaneObject>, lane: usize) -> (v: Vec<LaneObject>)
    ensures
        v@ == sort_by_grid(notes_in_lane(notes@, lane)),
{
    let l = lane_notes(notes, lane);
    sort_notes(&l)
}

proof fn lemma_insert_len(s: Seq<LaneObject>, x: LaneObject)
    ensures
        insert_by_grid(s, x).len() == s.len() + 1,
        insert_by_grid(s, x).to_multiset() == s.to_multiset().insert(x),
    decreases s.len(),
{
    broadcast use vstd::seq_lib::group_to_multiset_ensures;

    if s.len() > 0 && grid_before(x.position, s.last().position) {
        lemma_insert_len(s.drop_last(), x);
        assert(s.drop_last().push(s.last()) =~= s);
        assert(s.to_multiset() =~= s.drop_last().to_multiset().insert(s.last()));
        assert(s.drop_last().to_multiset().insert(x).insert(s.last()) =~= s.drop_last().to_multiset().insert(s.last()).insert(x));
    }
}

/// With positive resolutions, "does not lie before" is transitive.
proof fn lemma_not_before_trans(a: Position, b: Position, c: Position)
    requires
        a.resolution > 0,
        b.resolution > 0,
        c.resolution > 0,
        !grid_before(a, b),
        !grid_before(b, c),
    ensures
        !grid_before(a, c),
{
    if a.measure == b.measure && b.measure == c.measure {
        let (ai, ar, bi, br, ci, cr) = (
            a.index as int,
            a.resolution as int,
            b.index as int,
            b.resolution as int,
            c.index as int,
            c.resolution as int,
        );
        assert(ai * cr >= ci * ar) by (nonlinear_arith)
            requires
                ai * br >= bi * ar,
                bi * cr >= ci * br,
                ar > 0,
                br > 0,
                cr > 0,
                ai >= 0,
                bi >= 0,
                ci >= 0,
        {
            assert(ai * br * cr >= bi * ar * cr);
            assert(bi * cr * ar >= ci * br * ar);
            assert(ai * cr * br >= ci * ar * br);
        }
    }
}

/// All positions in `s` have a positive resolution.
pub open spec fn positive_resolutions(s: Seq<LaneObject>) -> bool {
    forall|i: int| 0 <= i < s.len() ==> #[trigger] s[i].position.resolution > 0
}

proof fn lemma_insert_sorted(s: Seq<LaneObject>, x: LaneObject)
    requires
        grid_sorted(s),
        positive_resolutions(s),
        x.position.resolution > 0,
    ensures
        grid_sorted(insert_by_grid(s, x)),
        forall|k: int|
            0 <= k < insert_by_grid(s, x).len() ==> #[trigger] insert_by_grid(s, x)[k] == x
                || s.contains(insert_by_grid(s, x)[k]),
    decreases s.len(),
{
    let r = insert_by_grid(s, x);
    if s.len() > 0 && grid_before(x.position, s.last().position) {
        let s1 = s.drop_last();
        let l = s.last();
        assert forall|i: int, j: int| 0 <= i < j < s1.len() implies !grid_before(
            #[trigger] s1[j].position,
            #[trigger] s1[i].position,
        ) by {
            assert(s1[i] == s[i] && s1[j] == s[j]);
        }
        assert forall|i: int| 0 <= i < s1.len() implies #[trigger] s1[i].position.resolution > 0 by {
            assert(s1[i] == s[i]);
        }
        lemma_insert_sorted(s1, x);
        lemma_insert_len(s1, x);
        let r1 = insert_by_grid(s1, x);
        assert(r == r1.push(l));
        assert forall|i: int, j: int| 0 <= i < j < r.len() implies !grid_before(
            #[trigger] r[j].position,
            #[trigger] r[i].position,
        ) by {
            if j < r1.len() {
                assert(r[i] == r1[i] && r[j] == r1[j]);
            } else {
                assert(r[j] == l);
                assert(r[i] == r1[i]);
                if r1[i] != x {
                    assert(s1.contains(r1[i]));
                    let k = choose|k: int| 0 <= k < s1.len() && s1[k] == r1[i];
                    assert(s[k] == s1[k]);
                    assert(s[s.len() - 1] == l);
                }
            }
        }
        assert forall|k: int| 0 <= k < r.len() implies #[trigger] r[k] == x || s.contains(r[k]) by {
            if k < r1.len() {
                assert(r[k] == r1[k]);
                if r1[k] != x {
                    let m = choose|m: int| 0 <= m < s1.len() && s1[m] == r1[k];
                    assert(s[m] == s1[m]);
                }
            } else {
                assert(s[s.len() - 1] == l);
            }
        }
    } else {
        assert(r == s.push(x));
        assert forall|i: int, j: int| 0 <= i < j < r.len() implies !grid_before(
            #[trigger] r[j].position,
            #[trigger] r[i].position,
        ) by {
            if j < s.len() {
                assert(r[i] == s[i] && r[j] == s[j]);
            } else {
                assert(r[j] == x);
                assert(r[i] == s[i]);
                let l = s.last();
                assert(l == s[s.len() - 1]);
                if i < s.len() - 1 {
                    assert(!grid_before(s[s.len() - 1].position, s[i].position));
                }
                assert(s[i].position.resolution > 0);
                assert(l.position.resolution > 0);
                lemma_not_before_trans(x.position, l.position, s[i].position);
            }
        }
        assert forall|k: int| 0 <= k < r.len() implies #[trigger] r[k] == x || s.contains(r[k]) by {
            if k < s.len() {
                assert(r[k] == s[k]);
            }
        }
    }
}

/// The grid order of a lane is sorted and holds exactly the lane's notes:
/// no note lies before one that comes earlier, and none is lost or added.
pub proof fn law_sort_by_grid(s: Seq<LaneObject>)
    requires
        positive_resolutions(s),
    ensures
        grid_sorted(sort_by_grid(s)),
        sort_by_grid(s).to_multiset() == s.to_multiset(),
        positive_resolutions(sort_by_grid(s)),
    decreases s.len(),
{
    broadcast use vstd::seq_lib::group_to_multiset_ensures;

    if s.len() > 0 {
        let s1 = s.drop_last();
        assert forall|i: int| 0 <= i < s1.len() implies #[trigger] s1[i].position.resolution > 0 by {
            assert(s1[i] == s[i]);
        }
        law_sort_by_grid(s1);
        let q = sort_by_grid(s1);
        let x = s.last();
        assert(x == s[s.len() - 1]);
        lemma_insert_sorted(q, x);
        lemma_insert_len(q, x);
        assert(s1.push(x) =~= s);
        let r = sort_by_grid(s);
        assert forall|i: int| 0 <= i < r.len() implies #[trigger] r[i].position.resolution > 0 by {
            if r[i] != x {
                assert(q.contains(r[i]));
                let k = choose|k: int| 0 <= k < q.len() && q[k] == r[i];
                assert(q[k].position.resolution > 0);
            }
        }
    }
}

} // verus!
