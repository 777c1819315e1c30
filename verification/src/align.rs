//! Aligning several tables by column name: header reconciliation with a
//! file-occurrence threshold, and re-projection of every row onto the
//! reconciled header.

use vstd::prelude::*;
use vstd::relations::sorted_by;
use vstd::seq_lib::group_to_multiset_ensures;
use vstd::seq_lib::to_multiset_insert;
use vstd::seq_lib::to_multiset_remove;
use vstd::seq_lib::lemma_sorted_unique;
use crate::text::lex_lt;
use crate::text::lex_leq_fn;
use crate::text::lemma_lex_leq_total_ordering;
use crate::text::str_lt;
use crate::text::trim_str;
use crate::text::trimmed;

verus! {

/// Configuration for the align operation.
///
/// `input_files` and `out` name the tables the caller reads and writes;
/// `at_least` is the occurrence count a column name must strictly exceed to
/// be kept, and `verbose` toggles progress reporting. Only `at_least`
/// affects the data contract.
pub struct AlignArgs {
    /// Only use columns that are in at least this many files.
    pub at_least: usize,
    pub input_files: Vec<String>,
    pub out: String,
    pub verbose: bool,
}

/// How often `name` occurs as a trimmed field of one header row. A name
/// that repeats within a single row counts once per occurrence.
pub open spec fn row_count(row: Seq<Seq<char>>, name: Seq<char>) -> nat
    decreases row.len(),
{
    if row.len() == 0 {
        0
    } else {
        row_count(row.drop_last(), name) + if trimmed(row.last()) == name {
            1nat
        } else {
            0nat
        }
    }
}

/// How often `name` occurs as a trimmed field over all the header rows.
pub open spec fn name_count(tables: Seq<Seq<Seq<char>>>, name: Seq<char>) -> nat
    decreases tables.len(),
{
    if tables.len() == 0 {
        0
    } else {
        name_count(tables.drop_last(), name) + row_count(tables.last(), name)
    }
}

proof fn lemma_row_count_step(row: Seq<Seq<char>>, j: int)
    requires
        0 <= j < row.len(),
    ensures
        forall|name: Seq<char>| #[trigger] row_count(row.take(j + 1), name) == row_count(
            row.take(j),
            name,
        ) + if trimmed(row[j]) == name {
            1nat
        } else {
            0nat
        },
{
    assert(row.take(j + 1).drop_last() =~= row.take(j));
    assert(row.take(j + 1).last() == row[j]);
}

proof fn lemma_table_count_step(tables: Seq<Seq<Seq<char>>>, i: int)
    requires
        0 <= i < tables.len(),
    ensures
        forall|name: Seq<char>| #[trigger] name_count(tables.take(i + 1), name) == name_count(
            tables.take(i),
            name,
        ) + row_count(tables[i], name),
{
    assert(tables.take(i + 1).drop_last() =~= tables.take(i));
    assert(tables.take(i + 1).last() == tables[i]);
}

/// The exact count may exceed what a machine word holds; an executable
/// counter is kept exact below `u128::MAX` and pinned there above it, which
/// the threshold comparison cannot distinguish.
spec fn counter_matches(c: u128, n: nat) -> bool {
    if n < u128::MAX {
        c == n
    } else {
        c == u128::MAX
    }
}

/// The count accumulated after the first `i` header rows and, within row
/// `i`, the first `j` fields.
spec fn seen_count(tables: Seq<Seq<Seq<char>>>, i: int, j: int, name: Seq<char>) -> nat {
    name_count(tables.take(i), name) + row_count(tables[i].take(j), name)
}

fn find_name(acc: &Vec<(String, u128)>, t: &String) -> (o: Option<usize>)
    ensures
        match o {
            Some(k) => 0 <= k < acc@.len() && acc@[k as int].0@ == t@,
            None => forall|m: int| 0 <= m < acc@.len() ==> acc@[m].0@ != t@,
        },
{
    let mut k: usize = 0;
    while k < acc.len()
        invariant
            0 <= k <= acc@.len(),
            forall|m: int| 0 <= m < k ==> acc@[m].0@ != t@,
        decreases acc@.len() - k,
    {
        let pair = &acc[k];
        if pair.0 == *t {
            return Some(k);
        }
        k = k + 1;
    }
    None
}

/// Counts, for every trimmed field name, how often it occurs over all the
/// header rows, one counter per distinct name.
fn count_names(tables: &Vec<Vec<String>>) -> (acc: Vec<(String, u128)>)
    ensures
        forall|x: int, y: int| 0 <= x < y < acc@.len() ==> acc@[x].0@ != acc@[y].0@,
        forall|x: int|
            0 <= x < acc@.len() ==> counter_matches(
                #[trigger] acc@[x].1,
                name_count(tables.deep_view(), acc@[x].0@),
            ) && name_count(tables.deep_view(), acc@[x].0@) > 0,
        forall|name: Seq<char>|
            #[trigger] name_count(tables.deep_view(), name) > 0 ==> exists|x: int|
                0 <= x < acc@.len() && acc@[x].0@ == name,
{
    let ghost ts = tables.deep_view();
    let mut acc: Vec<(String, u128)> = Vec::new();
    let mut i: usize = 0;
    proof {
        assert(ts.take(0) =~= Seq::<Seq<Seq<char>>>::empty());
    }
    while i < tables.len()
        invariant
            ts == tables.deep_view(),
            0 <= i <= tables@.len(),
            forall|x: int, y: int| 0 <= x < y < acc@.len() ==> acc@[x].0@ != acc@[y].0@,
            forall|x: int|
                0 <= x < acc@.len() ==> counter_matches(
                    #[trigger] acc@[x].1,
                    name_count(ts.take(i as int), acc@[x].0@),
                ) && name_count(ts.take(i as int), acc@[x].0@) > 0,
            forall|name: Seq<char>|
                #[trigger] name_count(ts.take(i as int), name) > 0 ==> exists|x: int|
                    0 <= x < acc@.len() && acc@[x].0@ == name,
        decreases tables@.len() - i,
    {
        let row = &tables[i];
        let mut j: usize = 0;
        proof {
            assert(ts[i as int] =~= row.deep_view());
            assert(ts[i as int].take(0) =~= Seq::<Seq<char>>::empty());
            assert(forall|name: Seq<char>| #[trigger] seen_count(ts, i as int, 0, name)
                == name_count(ts.take(i as int), name));
        }
        while j < row.len()
            invariant
                ts == tables.deep_view(),
                0 <= i < tables@.len(),
                row@ == tables@[i as int]@,
                ts[i as int] == row.deep_view(),
                0 <= j <= row@.len(),
                forall|x: int, y: int| 0 <= x < y < acc@.len() ==> acc@[x].0@ != acc@[y].0@,
                forall|x: int|
                    0 <= x < acc@.len() ==> counter_matches(
                        #[trigger] acc@[x].1,
                        seen_count(ts, i as int, j as int, acc@[x].0@),
                    ) && seen_count(ts, i as int, j as int, acc@[x].0@) > 0,
                forall|name: Seq<char>|
                    #[trigger] seen_count(ts, i as int, j as int, name) > 0 ==> exists|x: int|
                        0 <= x < acc@.len() && acc@[x].0@ == name,
            decreases row@.len() - j,
        {
            let t = trim_str(row[j].as_str());
            proof {
                assert(ts[i as int][j as int] == row@[j as int]@);
                lemma_row_count_step(ts[i as int], j as int);
                assert(forall|name: Seq<char>| #[trigger] seen_count(ts, i as int, j + 1, name)
                    == seen_count(ts, i as int, j as int, name) + if trimmed(
                    ts[i as int][j as int],
                ) == name {
                    1nat
                } else {
                    0nat
                });
            }
            let ghost old_acc = acc@;
            match find_name(&acc, &t) {
                Some(k) => {
                    let pair = acc.remove(k);
                    let c2 = if pair.1 == u128::MAX {
                        pair.1
                    } else {
                        pair.1 + 1
                    };
                    acc.insert(k, (pair.0, c2));
                    proof {
                        assert(pair == old_acc[k as int]);
                        assert(acc@.len() == old_acc.len());
                        assert(forall|x: int|
                            0 <= x < acc@.len() && x != k ==> acc@[x] == old_acc[x]);
                        assert(acc@[k as int].0@ == t@);
                        assert(exists|x: int| 0 <= x < acc@.len() && #[trigger] acc@[x].0@ == t@);
                        assert(counter_matches(
                            acc@[k as int].1,
                            seen_count(ts, i as int, j + 1, t@),
                        ));
                    }
                }
                None => {
                    acc.push((t, 1));
                    proof {
                        assert(forall|x: int| 0 <= x < old_acc.len() ==> acc@[x] == old_acc[x]);
                        assert(acc@[old_acc.len() as int].0@ == t@);
                        assert(exists|x: int| 0 <= x < acc@.len() && #[trigger] acc@[x].0@ == t@);
                        assert(seen_count(ts, i as int, j as int, t@) == 0);
                        assert(counter_matches(
                            acc@[old_acc.len() as int].1,
                            seen_count(ts, i as int, j + 1, t@),
                        ));
                    }
                }
            }
            proof {
                assert(forall|x: int|
                    0 <= x < old_acc.len() ==> #[trigger] acc@[x].0@ == old_acc[x].0@);
                assert forall|name: Seq<char>|
                    #[trigger] seen_count(ts, i as int, j + 1, name) > 0 implies exists|x: int|
                    0 <= x < acc@.len() && acc@[x].0@ == name by {
                    if name != t@ {
                        assert(seen_count(ts, i as int, j as int, name) > 0);
                        let x0 = choose|x0: int|
                            0 <= x0 < old_acc.len() && #[trigger] old_acc[x0].0@ == name;
                        assert(acc@[x0].0@ == name);
                    }
                }
                assert forall|x: int|
                    0 <= x < acc@.len() implies counter_matches(
                    #[trigger] acc@[x].1,
                    seen_count(ts, i as int, j + 1, acc@[x].0@),
                ) && seen_count(ts, i as int, j + 1, acc@[x].0@) > 0 by {
                    if x < old_acc.len() && acc@[x].0@ != t@ {
                        assert(acc@[x] == old_acc[x]);
                        assert(counter_matches(
                            old_acc[x].1,
                            seen_count(ts, i as int, j as int, old_acc[x].0@),
                        ));
                        assert(seen_count(ts, i as int, j + 1, acc@[x].0@) == seen_count(
                            ts,
                            i as int,
                            j as int,
                            acc@[x].0@,
                        ));
                    }
                }
                assert forall|x: int, y: int|
                    0 <= x < y < acc@.len() implies acc@[x].0@ != acc@[y].0@ by {
                    if y >= old_acc.len() {
                        assert(acc@[y].0@ == t@);
                        assert(acc@[x].0@ != t@);
                    }
                }
            }
            j = j + 1;
        }
        proof {
            assert(ts[i as int].take(row@.len() as int) =~= ts[i as int]);
            lemma_table_count_step(ts, i as int);
            assert(forall|name: Seq<char>| #[trigger] name_count(ts.take(i + 1), name)
                == seen_count(ts, i as int, row@.len() as int, name));
            assert forall|x: int|
                0 <= x < acc@.len() implies counter_matches(
                #[trigger] acc@[x].1,
                name_count(ts.take(i + 1), acc@[x].0@),
            ) && name_count(ts.take(i + 1), acc@[x].0@) > 0 by {
                assert(counter_matches(acc@[x].1, seen_count(ts, i as int, j as int, acc@[x].0@)));
                assert(name_count(ts.take(i + 1), acc@[x].0@) == seen_count(
                    ts,
                    i as int,
                    row@.len() as int,
                    acc@[x].0@,
                ));
            }
            assert forall|name: Seq<char>|
                #[trigger] name_count(ts.take(i + 1), name) > 0 implies exists|x: int|
                0 <= x < acc@.len() && acc@[x].0@ == name by {
                assert(seen_count(ts, i as int, j as int, name) > 0);
            }
        }
        i = i + 1;
    }
    proof {
        assert(ts.take(tables@.len() as int) =~= ts);
    }
    acc
}

/// Sorts names into the lexicographic order `lex_leq` describes, keeping
/// exactly the same multiset of names.
fn sort_names(v: Vec<String>) -> (r: Vec<String>)
    ensures
        r.deep_view().to_multiset() == v.deep_view().to_multiset(),
        sorted_by(r.deep_view(), lex_leq_fn()),
{
    let mut r = v;
    if r.len() <= 1 {
        return r;
    }
    proof {
        lemma_lex_leq_total_ordering();
    }
    let mut i: usize = 1;
    while i < r.len()
        invariant
            1 <= i <= r@.len(),
            r.deep_view().to_multiset() == v.deep_view().to_multiset(),
            sorted_by(r.deep_view().take(i as int), lex_leq_fn()),
        decreases r@.len() - i,
    {
        let ghost s0 = r.deep_view();
        let x = r.remove(i);
        proof {
            assert(r.deep_view() =~= s0.remove(i as int));
        }
        let mut p: usize = 0;
        while p < i && str_lt(r[p].as_str(), x.as_str())
            invariant
                0 <= p <= i,
                i < s0.len(),
                r@.len() == s0.len() - 1,
                r.deep_view() == s0.remove(i as int),
                x@ == s0[i as int],
                sorted_by(r.deep_view().take(i as int), lex_leq_fn()),
                forall|k: int| 0 <= k < p ==> lex_lt(#[trigger] r.deep_view()[k], x@),
            decreases i - p,
        {
            p = p + 1;
        }
        let ghost s1 = r.deep_view();
        r.insert(p, x);
        proof {
            lemma_lex_leq_total_ordering();
            broadcast use group_to_multiset_ensures;

            assert(r.deep_view() =~= s1.insert(p as int, s0[i as int]));
            to_multiset_remove(s0, i as int);
            to_multiset_insert(s1, p as int, s0[i as int]);
            assert(s0.to_multiset().contains(s0[i as int]));
            assert(r.deep_view().to_multiset() =~= s0.to_multiset());

            let leq = lex_leq_fn();
            let ndv = r.deep_view();
            assert forall|k: int, l: int| 0 <= k < l < i + 1 implies #[trigger] leq(
                ndv.take(i + 1)[k],
                ndv.take(i + 1)[l],
            ) by {
                let pi = p as int;
                if l < pi {
                    assert(leq(s1[k], s1[l]));
                } else if k < pi && l == pi {
                    assert(lex_lt(s1[k], s0[i as int]));
                } else if k < pi && l > pi {
                    assert(leq(s1[k], s1[l - 1]));
                } else if k == pi {
                    assert(pi < i);
                    assert(!lex_lt(s1[pi], s0[i as int]));
                    assert(leq(s1[pi], s0[i as int]) || leq(s0[i as int], s1[pi]));
                    assert(leq(s0[i as int], s1[pi]));
                    if l - 1 > pi {
                        assert(leq(s1[pi], s1[l - 1]));
                    }
                } else {
                    assert(leq(s1[k - 1], s1[l - 1]));
                }
            }
            assert(sorted_by(ndv.take(i + 1), leq));
        }
        i = i + 1;
    }
    proof {
        assert(r.deep_view().take(r@.len() as int) =~= r.deep_view());
    }
    r
}

/// What it means for `h` to be the reconciled header of the given header
/// rows at a threshold: strictly sorted by name, no duplicates, and holding
/// exactly the names whose occurrence count strictly exceeds the threshold.
pub open spec fn is_reconciled_header(
    tables: Seq<Seq<Seq<char>>>,
    threshold: nat,
    h: Seq<Seq<char>>,
) -> bool {
    &&& sorted_by(h, lex_leq_fn())
    &&& h.no_duplicates()
    &&& forall|name: Seq<char>| #[trigger]
        h.contains(name) <==> name_count(tables, name) > threshold
}

proof fn lemma_no_dup_from_multiset(a: Seq<Seq<char>>, b: Seq<Seq<char>>)
    requires
        a.to_multiset() == b.to_multiset(),
        a.no_duplicates(),
    ensures
        b.no_duplicates(),
{
    broadcast use group_to_multiset_ensures;

    a.lemma_multiset_has_no_duplicates();
    assert forall|i: int, j: int|
        0 <= i < b.len() && 0 <= j < b.len() && i != j implies b[i] != b[j] by {
        if b[i] == b[j] {
            let (lo, hi) = if i < j {
                (i, j)
            } else {
                (j, i)
            };
            to_multiset_remove(b, hi);
            assert(b.remove(hi)[lo] == b[lo]);
            assert(b.remove(hi).contains(b[lo]));
            assert(b.remove(hi).to_multiset().count(b[lo]) > 0);
            assert(b.to_multiset().count(b[lo]) >= 2);
            assert(a.to_multiset().contains(b[lo]));
            assert(a.contains(b[lo]));
        }
    }
}

/// Reconciles the header rows of several tables into one output header:
/// every distinct trimmed field name whose occurrence count strictly
/// exceeds `at_least`, in sorted order.
#[verifier::rlimit(100)]
pub fn reconcile_headers(headers: &Vec<Vec<String>>, at_least: usize) -> (r: Vec<String>)
    ensures
        is_reconciled_header(headers.deep_view(), at_least as nat, r.deep_view()),
{
    let ghost ts = headers.deep_view();
    let acc = count_names(headers);
    proof {
        assert forall|m: int| 0 <= m < acc@.len() implies (#[trigger] acc@[m].1 > at_least as u128
            <==> name_count(ts, acc@[m].0@) > at_least as nat) by {
            assert(counter_matches(acc@[m].1, name_count(ts, acc@[m].0@)));
            assert((at_least as u128) < u128::MAX);
        }
    }
    let mut names: Vec<String> = Vec::new();
    let mut k: usize = 0;
    while k < acc.len()
        invariant
            ts == headers.deep_view(),
            0 <= k <= acc@.len(),
            forall|x: int, y: int| 0 <= x < y < acc@.len() ==> acc@[x].0@ != acc@[y].0@,
            forall|m: int|
                0 <= m < acc@.len() ==> (#[trigger] acc@[m].1 > at_least as u128 <==> name_count(
                    ts,
                    acc@[m].0@,
                ) > at_least as nat),
            forall|name: Seq<char>|
                #[trigger] name_count(ts, name) > 0 ==> exists|x: int|
                    0 <= x < acc@.len() && acc@[x].0@ == name,
            forall|x: int|
                #![trigger names@[x]]
                0 <= x < names@.len() ==> name_count(ts, names@[x]@) > at_least as nat && exists|
                    m: int,
                |
                    0 <= m < k && names@[x]@ == #[trigger] acc@[m].0@,
            forall|m: int|
                0 <= m < k && name_count(ts, #[trigger] acc@[m].0@) > at_least as nat ==> exists|
                    x: int,
                |
                    0 <= x < names@.len() && names@[x]@ == acc@[m].0@,
            forall|x: int, y: int| 0 <= x < y < names@.len() ==> names@[x]@ != names@[y]@,
        decreases acc@.len() - k,
    {
        let ghost old_names = names@;
        let pair = &acc[k];
        let keep = pair.1 > at_least as u128;
        if keep {
            names.push(pair.0.clone());
        }
        proof {
            if keep {
                assert(names@.len() == old_names.len() + 1);
                assert(names@[old_names.len() as int]@ == acc@[k as int].0@);
            } else {
                assert(names@ == old_names);
            }
            assert(forall|x: int| 0 <= x < old_names.len() ==> names@[x] == old_names[x]);
            assert(keep <==> name_count(ts, acc@[k as int].0@) > at_least as nat);
            assert forall|x: int| #![trigger names@[x]] 0 <= x < names@.len() implies name_count(
                ts,
                names@[x]@,
            ) > at_least as nat && exists|m: int| 0 <= m < k + 1 && names@[x]@
                == #[trigger] acc@[m].0@ by {
                if x < old_names.len() {
                    let m0 = choose|m0: int| 0 <= m0 < k && old_names[x]@ == #[trigger] acc@[m0].0@;
                    assert(names@[x]@ == acc@[m0].0@);
                } else {
                    assert(names@[x]@ == acc@[k as int].0@);
                }
            }
            assert forall|m: int|
                0 <= m < k + 1 && name_count(ts, #[trigger] acc@[m].0@) > at_least
                    as nat implies exists|x: int| 0 <= x < names@.len() && names@[x]@
                == acc@[m].0@ by {
                if m < k {
                    let x0 = choose|x0: int|
                        0 <= x0 < old_names.len() && old_names[x0]@ == acc@[m].0@;
                    assert(names@[x0]@ == acc@[m].0@);
                } else {
                    assert(keep);
                    assert(names@[old_names.len() as int]@ == acc@[m].0@);
                }
            }
            assert forall|x: int, y: int|
                0 <= x < y < names@.len() implies names@[x]@ != names@[y]@ by {
                if y >= old_names.len() {
                    let m0 = choose|m0: int| 0 <= m0 < k && old_names[x]@ == #[trigger] acc@[m0].0@;
                    assert(names@[y]@ == acc@[k as int].0@);
                    assert(names@[x]@ == acc@[m0].0@);
                    assert(acc@[m0].0@ != acc@[k as int].0@);
                }
            }
        }
        k = k + 1;
    }
    proof {
        assert forall|name: Seq<char>| #[trigger] names.deep_view().contains(name) <==> name_count(
            ts,
            name,
        ) > at_least as nat by {
            if names.deep_view().contains(name) {
                let x = choose|x: int|
                    0 <= x < names.deep_view().len() && names.deep_view()[x] == name;
                assert(names@[x]@ == name);
            }
            if name_count(ts, name) > at_least as nat {
                let m = choose|m: int| 0 <= m < acc@.len() && acc@[m].0@ == name;
                let x = choose|x: int| 0 <= x < names@.len() && names@[x]@ == acc@[m].0@;
                assert(names.deep_view()[x] == name);
            }
        }
        assert forall|i: int, j: int|
            0 <= i < names.deep_view().len() && 0 <= j < names.deep_view().len() && i != j
            implies names.deep_view()[i] != names.deep_view()[j] by {
            if i < j {
                assert(names@[i]@ != names@[j]@);
            } else {
                assert(names@[j]@ != names@[i]@);
            }
        }
    }
    let ghost pre = names.deep_view();
    let r = sort_names(names);
    proof {
        broadcast use group_to_multiset_ensures;

        lemma_no_dup_from_multiset(pre, r.deep_view());
        assert forall|name: Seq<char>| #[trigger] r.deep_view().contains(name) <==> name_count(
            ts,
            name,
        ) > at_least as nat by {
            assert(r.deep_view().contains(name) <==> r.deep_view().to_multiset().count(name) > 0);
            assert(pre.contains(name) <==> pre.to_multiset().count(name) > 0);
        }
    }
    r
}

/// The position of the first field of `header` whose trimmed text equals
/// `name`: the column of `header`'s file that feeds an output column
/// called `name`. A result of `header.len()` means no field matches.
pub open spec fn first_pos(header: Seq<Seq<char>>, name: Seq<char>) -> int
    decreases header.len(),
{
    if header.len() == 0 {
        0
    } else if trimmed(header[0]) == name {
        0
    } else {
        1 + first_pos(header.drop_first(), name)
    }
}

pub proof fn lemma_first_pos_at(header: Seq<Seq<char>>, name: Seq<char>, j: int)
    requires
        0 <= j <= header.len(),
        forall|q: int| 0 <= q < j ==> trimmed(#[trigger] header[q]) != name,
        j == header.len() || trimmed(header[j]) == name,
    ensures
        first_pos(header, name) == j,
    decreases header.len(),
{
    if header.len() == 0 {
    } else if trimmed(header[0]) == name {
        assert(j == 0);
    } else {
        assert(j >= 1);
        let t = header.drop_first();
        assert(forall|q: int| 0 <= q < j - 1 ==> trimmed(#[trigger] t[q]) != name);
        assert(j - 1 == t.len() || trimmed(t[j - 1]) == name);
        lemma_first_pos_at(t, name, j - 1);
    }
}

/// What a re-projected row holds for an output column called `name`: the
/// row's field at the column's position in the file's own header, or the
/// empty string where the file has no such column.
pub open spec fn projected_cell(fh: Seq<Seq<char>>, row: Seq<Seq<char>>, name: Seq<char>) -> Seq<
    char,
> {
    if first_pos(fh, name) == fh.len() {
        Seq::<char>::empty()
    } else {
        row[first_pos(fh, name)]
    }
}

/// A whole row re-projected onto the output header `hs`.
pub open spec fn projected_row(fh: Seq<Seq<char>>, hs: Seq<Seq<char>>, row: Seq<Seq<char>>) -> Seq<
    Seq<char>,
> {
    Seq::new(hs.len(), |x: int| projected_cell(fh, row, hs[x]))
}

/// Whether every output column that `fh`'s file does provide points inside
/// `row`: the condition under which re-projecting `row` succeeds.
pub open spec fn row_projectable(fh: Seq<Seq<char>>, hs: Seq<Seq<char>>, row: Seq<Seq<char>>) -> bool {
    forall|x: int|
        0 <= x < hs.len() ==> (#[trigger] first_pos(fh, hs[x]) < fh.len() ==> first_pos(fh, hs[x])
            < row.len())
}

/// A column that no trimmed field of a file's header bears is filled with
/// the empty string in every re-projected row of that file.
pub proof fn lemma_missing_column_fill(fh: Seq<Seq<char>>, name: Seq<char>, row: Seq<Seq<char>>)
    requires
        forall|j: int| 0 <= j < fh.len() ==> trimmed(#[trigger] fh[j]) != name,
    ensures
        projected_cell(fh, row, name) == Seq::<char>::empty(),
{
    lemma_first_pos_at(fh, name, fh.len() as int);
}

fn find_column(header: &Vec<String>, name: &String) -> (o: Option<usize>)
    ensures
        match o {
            Some(a) => a == first_pos(header.deep_view(), name@) && a < header@.len(),
            None => first_pos(header.deep_view(), name@) == header@.len(),
        },
{
    let ghost hd = header.deep_view();
    let mut j: usize = 0;
    while j < header.len()
        invariant
            hd == header.deep_view(),
            0 <= j <= header@.len(),
            forall|q: int| 0 <= q < j ==> trimmed(#[trigger] hd[q]) != name@,
        decreases header@.len() - j,
    {
        let t = trim_str(header[j].as_str());
        if t == *name {
            proof {
                assert(trimmed(hd[j as int]) == name@);
                lemma_first_pos_at(hd, name@, j as int);
            }
            return Some(j);
        }
        proof {
            assert(trimmed(hd[j as int]) != name@);
        }
        j = j + 1;
    }
    proof {
        lemma_first_pos_at(hd, name@, header@.len() as int);
    }
    None
}

/// For every output column, the position of that column in one file's own
/// header, found by trimmed equality, or `None` where the file lacks it.
pub fn header_positions(output: &Vec<String>, header: &Vec<String>) -> (r: Vec<Option<usize>>)
    ensures
        r@.len() == output@.len(),
        forall|x: int|
            0 <= x < r@.len() ==> match #[trigger] r@[x] {
                Option::Some(a) => a == first_pos(header.deep_view(), output.deep_view()[x])
                    && a < header@.len(),
                Option::None => first_pos(header.deep_view(), output.deep_view()[x])
                    == header@.len(),
            },
{
    let ghost hd = header.deep_view();
    let ghost od = output.deep_view();
    let mut r: Vec<Option<usize>> = Vec::new();
    let mut x: usize = 0;
    while x < output.len()
        invariant
            hd == header.deep_view(),
            od == output.deep_view(),
            0 <= x <= output@.len(),
            r@.len() == x,
            forall|q: int|
                0 <= q < x ==> match #[trigger] r@[q] {
                    Option::Some(a) => a == first_pos(hd, od[q]) && a < header@.len(),
                    Option::None => first_pos(hd, od[q]) == header@.len(),
                },
        decreases output@.len() - x,
    {
        let o = find_column(header, &output[x]);
        proof {
            assert(od[x as int] == output@[x as int]@);
        }
        r.push(o);
        x = x + 1;
    }
    r
}

/// The lookup failure that aborts an align run: output column `column`
/// resolved to field index `position` of a file's header, but a data row
/// of that file is too short to hold it.
#[derive(Clone, Copy, Debug, PartialEq, Eq, Structural)]
pub struct ProjectError {
    pub column: usize,
    pub position: usize,
}

/// Re-emits one data row under the output header: for every output column,
/// the row's field at the column's resolved position, verbatim, or an empty
/// field where the file lacks the column. Fails on the first output column
/// whose resolved position lies beyond the row's end.
pub fn project_row(row: &Vec<String>, positions: &Vec<Option<usize>>) -> (r: Result<
    Vec<String>,
    ProjectError,
>)
    ensures
        match r {
            Ok(out) => {
                &&& out@.len() == positions@.len()
                &&& forall|x: int|
                    0 <= x < positions@.len() ==> match #[trigger] positions@[x] {
                        Option::Some(p) => p < row@.len() && out.deep_view()[x]
                            == row.deep_view()[p as int],
                        Option::None => out.deep_view()[x] == Seq::<char>::empty(),
                    }
            },
            Err(e) => {
                &&& e.column < positions@.len()
                &&& positions@[e.column as int] == Some(e.position)
                &&& e.position >= row@.len()
                &&& forall|x: int|
                    0 <= x < e.column ==> match #[trigger] positions@[x] {
                        Option::Some(p) => p < row@.len(),
                        Option::None => true,
                    }
            },
        },
{
    let mut out: Vec<String> = Vec::new();
    let mut x: usize = 0;
    while x < positions.len()
        invariant
            0 <= x <= positions@.len(),
            out@.len() == x,
            forall|q: int|
                0 <= q < x ==> match #[trigger] positions@[q] {
                    Option::Some(p) => p < row@.len() && out.deep_view()[q]
                        == row.deep_view()[p as int],
                    Option::None => out.deep_view()[q] == Seq::<char>::empty(),
                },
        decreases positions@.len() - x,
    {
        let ghost old_out = out.deep_view();
        match positions[x] {
            Some(p) => {
                if p < row.len() {
                    out.push(row[p].clone());
                    proof {
                        assert(out.deep_view()[x as int] == row.deep_view()[p as int]);
                    }
                } else {
                    return Err(ProjectError { column: x, position: p });
                }
            },
            None => {
                out.push(String::new());
                proof {
                    assert(out.deep_view()[x as int] =~= Seq::<char>::empty());
                }
            },
        }
        proof {
            assert(forall|q: int| 0 <= q < x ==> out.deep_view()[q] == old_out[q]);
        }
        x = x + 1;
    }
    Ok(out)
}

/// The reconciled header is empty exactly when no name's occurrence count
/// clears the threshold; the operation then succeeds while producing no
/// output at all.
pub proof fn lemma_empty_header_iff(tables: Seq<Seq<Seq<char>>>, threshold: nat, h: Seq<Seq<char>>)
    requires
        is_reconciled_header(tables, threshold, h),
    ensures
        h.len() == 0 <==> forall|name: Seq<char>| #[trigger] name_count(tables, name) <= threshold,
{
    if h.len() > 0 {
        assert(h.contains(h[0]));
        assert(name_count(tables, h[0]) > threshold);
    } else {
        assert forall|name: Seq<char>| #[trigger] name_count(tables, name) <= threshold by {
            if name_count(tables, name) > threshold {
                assert(h.contains(name));
            }
        }
    }
}

/// Any two sequences that are both reconciled headers of the same tables at
/// the same threshold are equal: reconciliation is deterministic, and its
/// result is exactly the sorted set of names that clear the threshold.
pub proof fn lemma_reconciled_header_unique(
    tables: Seq<Seq<Seq<char>>>,
    threshold: nat,
    h1: Seq<Seq<char>>,
    h2: Seq<Seq<char>>,
)
    requires
        is_reconciled_header(tables, threshold, h1),
        is_reconciled_header(tables, threshold, h2),
    ensures
        h1 == h2,
{
    broadcast use group_to_multiset_ensures;

    lemma_lex_leq_total_ordering();
    h1.lemma_multiset_has_no_duplicates();
    h2.lemma_multiset_has_no_duplicates();
    assert forall|x: Seq<char>| true implies #[trigger] h1.to_multiset().count(x)
        == h2.to_multiset().count(x) by {
        if h1.contains(x) {
            assert(h2.contains(x));
        } else {
            assert(h1.to_multiset().count(x) == 0);
            if h2.contains(x) {
                assert(h1.contains(x));
            }
            assert(h2.to_multiset().count(x) == 0);
        }
    }
    assert(h1.to_multiset() =~= h2.to_multiset());
    lemma_sorted_unique(h1, h2, lex_leq_fn());
}

} // verus!
