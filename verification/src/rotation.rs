//! Rotating numbered copies of a file.
//!
//! A set of files is a live one and copies `.1`, `.2`, … of what it held
//! before, newest first. Rotating moves every file down one slot and drops the
//! oldest.

use crate::text;
use vstd::prelude::*;
use vstd::string::*;

verus! {

/// The file that holds the `n`th copy.
pub open spec fn nth_name(name: Seq<char>, n: nat) -> Seq<char> {
    name + "."@ + text::decimal(n)
}

/// The `i`th file of a set: the live one, then the copies, newest first.
pub open spec fn slot(name: Seq<char>, i: nat) -> Seq<char> {
    if i == 0 {
        name
    } else {
        nth_name(name, i)
    }
}

/// The `n`th copy of a file.
pub fn nth_file(name: &str, n: usize) -> (f: String)
    ensures
        f@ == nth_name(name@, n as nat),
{
    let mut f = name.to_owned();
    f.append(".");
    text::push_decimal(&mut f, n as u128);
    f
}

/// The `i`th file of a set.
pub fn slot_file(name: &str, i: usize) -> (f: String)
    ensures
        f@ == slot(name@, i as nat),
{
    if i == 0 {
        name.to_owned()
    } else {
        nth_file(name, i)
    }
}

/// The renames of a rotation: oldest first, so that none is overwritten
/// before it has moved.
pub open spec fn renames(name: Seq<char>, keep: nat) -> Seq<(Seq<char>, Seq<char>)> {
    Seq::new(keep, |j: int| (slot(name, (keep - 1 - j) as nat), slot(name, (keep - j) as nat)))
}

/// Renames by what they say.
pub open spec fn rename_views(moves: Seq<(String, String)>) -> Seq<(Seq<char>, Seq<char>)> {
    moves.map_values(|m: (String, String)| (m.0@, m.1@))
}

/// The renames that move every file of a set down one slot. Each may fail: a
/// missing predecessor is the normal case at first.
pub fn rotation_moves(name: &str, keep: usize) -> (moves: Vec<(String, String)>)
    ensures
        rename_views(moves@) == renames(name@, keep as nat),
{
    let ghost all = renames(name@, keep as nat);
    let mut moves: Vec<(String, String)> = Vec::new();
    let mut left: usize = keep;
    while left > 0
        invariant
            left <= keep,
            all == renames(name@, keep as nat),
            rename_views(moves@) == all.take(keep - left),
        decreases left,
    {
        let ghost before = moves@;
        moves.push((slot_file(name, left - 1), slot_file(name, left)));
        proof {
            let j = keep - left;
            assert(rename_views(moves@) =~= rename_views(before).push(all[j]));
        }
        left = left - 1;
    }
    moves
}

/// A directory after a rename. It maps the names of its files to their
/// contents.
pub open spec fn moved(dir: Map<Seq<char>, Seq<u8>>, from: Seq<char>, to: Seq<char>) -> Map<
    Seq<char>,
    Seq<u8>,
> {
    if dir.contains_key(from) {
        dir.insert(to, dir[from]).remove(from)
    } else {
        dir
    }
}

/// A directory after the first `k` of some renames.
pub open spec fn after_moves(
    dir: Map<Seq<char>, Seq<u8>>,
    moves: Seq<(Seq<char>, Seq<char>)>,
    k: nat,
) -> Map<Seq<char>, Seq<u8>>
    decreases k,
{
    if k == 0 {
        dir
    } else {
        moved(after_moves(dir, moves, (k - 1) as nat), moves[k - 1].0, moves[k - 1].1)
    }
}

/// A decimal number is made of digits.
pub proof fn lemma_decimal_digits(n: nat)
    ensures
        text::decimal(n).len() > 0,
        forall|i: int|
            0 <= i < text::decimal(n).len() ==> 48 <= (#[trigger] text::decimal(n)[i]) as int <= 57,
    decreases n,
{
    if n >= 10 {
        lemma_decimal_digits(n / 10);
    }
}

/// Different numbers look different.
pub proof fn lemma_decimal_injective(m: nat, n: nat)
    requires
        text::decimal(m) == text::decimal(n),
    ensures
        m == n,
    decreases m,
{
    let a = text::decimal(m);
    let b = text::decimal(n);
    lemma_decimal_digits(m / 10);
    lemma_decimal_digits(n / 10);
    assert(text::digit_char(m % 10) == a.last());
    if m >= 10 && n >= 10 {
        assert(a.drop_last() =~= text::decimal(m / 10));
        assert(b.drop_last() =~= text::decimal(n / 10));
        lemma_decimal_injective(m / 10, n / 10);
    }
}

/// The files of a set have different names.
pub proof fn lemma_slots_differ(name: Seq<char>, i: nat, j: nat)
    requires
        slot(name, i) == slot(name, j),
    ensures
        i == j,
{
    reveal_strlit(".");
    let (a, b) = (slot(name, i), slot(name, j));
    if i > 0 && j > 0 {
        let n = name.len() as int;
        assert(a.skip(n + 1) =~= text::decimal(i));
        assert(b.skip(n + 1) =~= text::decimal(j));
        lemma_decimal_injective(i, j);
    } else {
        lemma_decimal_digits(i);
        lemma_decimal_digits(j);
    }
}

/// Whether a file is one of the set.
pub open spec fn is_slot(name: Seq<char>, keep: nat, f: Seq<char>) -> bool {
    exists|i: nat| i <= keep && f == #[trigger] slot(name, i)
}

/// The rotation after `j` of its steps: the newer slots are where they were,
/// the oldest have moved down, and the one in between is free.
pub open spec fn rotated(
    before: Map<Seq<char>, Seq<u8>>,
    now: Map<Seq<char>, Seq<u8>>,
    name: Seq<char>,
    keep: nat,
    j: int,
) -> bool {
    &&& forall|i: nat|
        #![trigger slot(name, i)]
        i < keep - j || i > keep ==> now.contains_key(slot(name, i)) == before.contains_key(
            slot(name, i),
        ) && now[slot(name, i)] == before[slot(name, i)]
    &&& forall|i: nat|
        #![trigger slot(name, i)]
        keep - j <= i < keep && before.contains_key(slot(name, i)) ==> now.contains_key(
            slot(name, i + 1),
        ) && now[slot(name, i + 1)] == before[slot(name, i)]
    &&& j > 0 ==> !now.contains_key(slot(name, (keep - j) as nat))
    &&& j == 0 ==> now.contains_key(slot(name, keep)) == before.contains_key(slot(name, keep))
        && now[slot(name, keep)] == before[slot(name, keep)]
    &&& forall|f: Seq<char>|
        #![trigger now.contains_key(f)]
        #![trigger now[f]]
        !is_slot(name, keep, f) ==> now.contains_key(f) == before.contains_key(f) && now[f]
            == before[f]
}

/// One more rename keeps a rotation on its way.
pub proof fn lemma_rotation_step(
    before: Map<Seq<char>, Seq<u8>>,
    now: Map<Seq<char>, Seq<u8>>,
    name: Seq<char>,
    keep: nat,
    j: int,
)
    requires
        0 <= j < keep,
        rotated(before, now, name, keep, j),
    ensures
        rotated(
            before,
            moved(now, slot(name, (keep - 1 - j) as nat), slot(name, (keep - j) as nat)),
            name,
            keep,
            j + 1,
        ),
{
    let f = (keep - 1 - j) as nat;
    let from = slot(name, f);
    let to = slot(name, f + 1);
    let next = moved(now, from, to);
    assert forall|i: nat|
        #![trigger slot(name, i)]
        i < keep - (j + 1) || i > keep implies next.contains_key(slot(name, i))
        == before.contains_key(slot(name, i)) && next[slot(name, i)] == before[slot(name, i)] by {
        if slot(name, i) == from {
            lemma_slots_differ(name, i, f);
        }
        if slot(name, i) == to {
            lemma_slots_differ(name, i, f + 1);
        }
    }
    assert forall|i: nat|
        #![trigger slot(name, i)]
        keep - (j + 1) <= i < keep && before.contains_key(slot(name, i)) implies next.contains_key(
        slot(name, i + 1),
    ) && next[slot(name, i + 1)] == before[slot(name, i)] by {
        if slot(name, i + 1) == from {
            lemma_slots_differ(name, i + 1, f);
        }
        if i == f {
            if from == to {
                lemma_slots_differ(name, f, f + 1);
            }
        } else if slot(name, i + 1) == to {
            lemma_slots_differ(name, i + 1, f + 1);
        }
    }
    if from == to {
        lemma_slots_differ(name, f, f + 1);
    }
    assert forall|g: Seq<char>|
        #![trigger next.contains_key(g)]
        #![trigger next[g]]
        !is_slot(name, keep, g) implies next.contains_key(g) == before.contains_key(g) && next[g]
        == before[g] by {
    }
}

proof fn lemma_rotation_progress(
    dir: Map<Seq<char>, Seq<u8>>,
    name: Seq<char>,
    keep: nat,
    j: nat,
)
    requires
        j <= keep,
    ensures
        rotated(dir, after_moves(dir, renames(name, keep), j), name, keep, j as int),
    decreases j,
{
    if j > 0 {
        let i = (j - 1) as nat;
        lemma_rotation_progress(dir, name, keep, i);
        lemma_rotation_step(dir, after_moves(dir, renames(name, keep), i), name, keep, i as int);
    }
}

/// A rotation frees the live name, moves every file down one slot and touches
/// no file beyond the set, so the copies never number more than `keep`.
pub proof fn law_a_rotation_moves_every_copy_down(
    dir: Map<Seq<char>, Seq<u8>>,
    name: Seq<char>,
    keep: nat,
)
    requires
        keep > 0,
    ensures
        ({
            let now = after_moves(dir, renames(name, keep), keep);
            &&& !now.contains_key(slot(name, 0))
            &&& forall|i: nat|
                #![trigger slot(name, i)]
                i < keep && dir.contains_key(slot(name, i)) ==> now.contains_key(slot(name, i + 1))
                    && now[slot(name, i + 1)] == dir[slot(name, i)]
            &&& forall|f: Seq<char>|
                #![trigger now.contains_key(f)]
                #![trigger now[f]]
                !is_slot(name, keep, f) ==> now.contains_key(f) == dir.contains_key(f) && now[f]
                    == dir[f]
        }),
{
    lemma_rotation_progress(dir, name, keep, keep);
}

/// The live file has the name that it was given. A copy has that name, a dot
/// and its number.
pub proof fn law_copies_are_numbered(name: &str, i: usize, f: String)
    requires
        call_ensures(slot_file, (name, i), f),
    ensures
        i == 0 ==> f@ == name@,
        i > 0 ==> name@.is_prefix_of(f@) && f@.len() > name@.len() + 1 && f@[name@.len() as int]
            == '.' && text::decimal_value(f@.skip((name@.len() + 1) as int)) == i,
{
    reveal_strlit(".");
    text::law_decimal_reads_back(i as nat, 0);
    let n = name@.len() as int;
    if i > 0 {
        assert(f@.subrange(0, n) =~= name@);
        assert(f@.skip(n + 1) =~= text::decimal(i as nat));
    }
}

/// A rotation renames every file of the set but the oldest copy to the next
/// slot, once, and the copies before the live file.
pub proof fn law_every_file_moves_down_one_slot(
    name: &str,
    keep: usize,
    moves: Vec<(String, String)>,
    i: int,
)
    requires
        call_ensures(rotation_moves, (name, keep), moves),
        0 <= i < keep,
    ensures
        moves@.len() == keep,
        moves@[keep - 1 - i].0@ == slot(name@, i as nat),
        moves@[keep - 1 - i].1@ == slot(name@, (i + 1) as nat),
{
    let j = keep - 1 - i;
    assert(rename_views(moves@).len() == keep);
    assert(rename_views(moves@)[j] == renames(name@, keep as nat)[j]);
    assert(rename_views(moves@)[j] == (moves@[j].0@, moves@[j].1@));
}

} // verus!
