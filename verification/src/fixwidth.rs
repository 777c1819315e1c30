//! Fixed-width pretty-printing of a single table: a measuring pass that
//! records the widest trimmed cell of every column, and an emitting pass
//! that pads each cell from the previous column's slack.

use vstd::prelude::*;
use crate::text::spaces;
use crate::text::make_spaces;
use crate::text::trim_str;
use crate::text::trimmed;

verus! {

/// Configuration for the fixwidth operation.
///
/// `input_file` names the table the caller reads; `out` is where the padded
/// table goes, with `None` standing for the standard output stream.
pub struct FixwidthArgs {
    pub input_file: String,
    /// File to output to, if not specified standard out will be used.
    pub out: Option<String>,
}

/// The number of columns of the widest row seen.
pub open spec fn max_row_len(rows: Seq<Seq<Seq<char>>>) -> nat
    decreases rows.len(),
{
    if rows.len() == 0 {
        0
    } else {
        let m = max_row_len(rows.drop_last());
        if rows.last().len() > m {
            rows.last().len()
        } else {
            m
        }
    }
}

/// The width of column `i`: the longest trimmed cell seen at that column
/// index over all rows, and zero where no row reaches the index.
pub open spec fn col_width(rows: Seq<Seq<Seq<char>>>, i: int) -> nat
    decreases rows.len(),
{
    if rows.len() == 0 {
        0
    } else {
        let m = col_width(rows.drop_last(), i);
        let c = if 0 <= i < rows.last().len() {
            trimmed(rows.last()[i]).len()
        } else {
            0
        };
        if c > m {
            c
        } else {
            m
        }
    }
}

proof fn lemma_width_step(rows: Seq<Seq<Seq<char>>>, k: int)
    requires
        0 <= k < rows.len(),
    ensures
        max_row_len(rows.take(k + 1)) == if rows[k].len() > max_row_len(rows.take(k)) {
            rows[k].len()
        } else {
            max_row_len(rows.take(k))
        },
        forall|i: int|
            #[trigger] col_width(rows.take(k + 1), i) == ({
                let m = col_width(rows.take(k), i);
                let c = if 0 <= i < rows[k].len() {
                    trimmed(rows[k][i]).len()
                } else {
                    0nat
                };
                if c > m {
                    c
                } else {
                    m
                }
            }),
{
    assert(rows.take(k + 1).drop_last() =~= rows.take(k));
    assert(rows.take(k + 1).last() == rows[k]);
}

proof fn lemma_col_width_zero(rows: Seq<Seq<Seq<char>>>, i: int)
    requires
        i < 0 || i >= max_row_len(rows),
    ensures
        col_width(rows, i) == 0,
    decreases rows.len(),
{
    if rows.len() > 0 {
        lemma_col_width_zero(rows.drop_last(), i);
    }
}

/// Every cell's trimmed length is bounded by its column's width, and every
/// row fits inside the width table.
pub proof fn lemma_col_width_ge(rows: Seq<Seq<Seq<char>>>, r: int, i: int)
    requires
        0 <= r < rows.len(),
        0 <= i < rows[r].len(),
    ensures
        rows[r].len() <= max_row_len(rows),
        trimmed(rows[r][i]).len() <= col_width(rows, i),
    decreases rows.len(),
{
    if r < rows.len() - 1 {
        assert(rows.drop_last()[r] == rows[r]);
        lemma_col_width_ge(rows.drop_last(), r, i);
    }
}

/// Computes the width table of a table: one entry per column index of the
/// widest row, holding the longest trimmed cell seen at that index.
#[verifier::loop_isolation(false)]
pub fn scan_widths(rows: &Vec<Vec<String>>) -> (w: Vec<usize>)
    ensures
        w@.len() == max_row_len(rows.deep_view()),
        forall|i: int| 0 <= i < w@.len() ==> w@[i] == col_width(rows.deep_view(), i),
        forall|r: int|
            0 <= r < rows.deep_view().len() ==> (#[trigger] rows.deep_view()[r]).len()
                <= max_row_len(rows.deep_view()),
        forall|r: int, i: int|
            #![trigger rows.deep_view()[r][i]]
            0 <= r < rows.deep_view().len() && 0 <= i < rows.deep_view()[r].len() ==> trimmed(
                rows.deep_view()[r][i],
            ).len() <= col_width(rows.deep_view(), i),
{
    let ghost dv = rows.deep_view();
    let mut w: Vec<usize> = Vec::new();
    let mut k: usize = 0;
    proof {
        assert(dv.take(0) =~= Seq::<Seq<Seq<char>>>::empty());
    }
    while k < rows.len()
        invariant
            dv == rows.deep_view(),
            0 <= k <= rows@.len(),
            w@.len() == max_row_len(dv.take(k as int)),
            forall|i: int| 0 <= i < w@.len() ==> w@[i] == col_width(dv.take(k as int), i),
        decreases rows@.len() - k,
    {
        let row = &rows[k];
        let rl = row.len();
        let wl = w.len();
        let m = if rl > wl {
            rl
        } else {
            wl
        };
        proof {
            assert(dv[k as int] =~= row.deep_view());
            lemma_width_step(dv, k as int);
        }
        let mut nw: Vec<usize> = Vec::new();
        let mut i: usize = 0;
        while i < m
            invariant
                dv == rows.deep_view(),
                0 <= k < rows@.len(),
                row@ == rows@[k as int]@,
                dv[k as int] == row.deep_view(),
                rl == row@.len(),
                wl == w@.len(),
                m == if rl > wl {
                    rl
                } else {
                    wl
                },
                w@.len() == max_row_len(dv.take(k as int)),
                forall|q: int| 0 <= q < w@.len() ==> w@[q] == col_width(dv.take(k as int), q),
                0 <= i <= m,
                nw@.len() == i,
                forall|q: int| 0 <= q < i ==> nw@[q] == col_width(dv.take(k + 1), q),
            decreases m - i,
        {
            let base: usize = if i < wl {
                w[i]
            } else {
                0
            };
            let cw: usize = if i < rl {
                trim_str(row[i].as_str()).unicode_len()
            } else {
                0
            };
            proof {
                if i >= wl {
                    lemma_col_width_zero(dv.take(k as int), i as int);
                }
                if i < rl {
                    assert(dv[k as int][i as int] == row@[i as int]@);
                }
            }
            nw.push(
                if cw > base {
                    cw
                } else {
                    base
                },
            );
            i = i + 1;
        }
        w = nw;
        k = k + 1;
    }
    proof {
        assert(dv.take(rows@.len() as int) =~= dv);
        assert forall|r: int| 0 <= r < dv.len() implies (#[trigger] dv[r]).len() <= max_row_len(
            dv,
        ) by {
            if dv[r].len() > 0 {
                lemma_col_width_ge(dv, r, 0);
            }
        }
        assert forall|r: int, i: int|
            #![trigger dv[r][i]]
            0 <= r < dv.len() && 0 <= i < dv[r].len() implies trimmed(dv[r][i]).len() <= col_width(
            dv,
            i,
        ) by {
            lemma_col_width_ge(dv, r, i);
        }
    }
    w
}

/// The left slack of column `i` in a row: zero for an empty trimmed cell,
/// otherwise the column's width minus the cell's trimmed length.
pub open spec fn cell_padding(w: spec_fn(int) -> int, row: Seq<Seq<char>>, i: int) -> int {
    if trimmed(row[i]).len() == 0 {
        0
    } else {
        w(i) - trimmed(row[i]).len()
    }
}

/// One output cell of the padded row. The first column is only trimmed;
/// a later column is prefixed with the previous column's slack plus one
/// space, and a cell with no slack of its own additionally carries a full
/// column width of spaces before its text.
pub open spec fn padded_cell(w: spec_fn(int) -> int, row: Seq<Seq<char>>, i: int) -> Seq<char> {
    if i == 0 {
        trimmed(row[0])
    } else if cell_padding(w, row, i) > 0 {
        spaces((cell_padding(w, row, i - 1) + 1) as nat) + trimmed(row[i])
    } else {
        spaces((cell_padding(w, row, i - 1) + 1) as nat) + spaces(w(i) as nat) + trimmed(row[i])
    }
}

/// A width table held as a sequence, as the widths the padding follows;
/// zero beyond the table's end.
pub open spec fn vec_widths(ws: Seq<usize>) -> spec_fn(int) -> int {
    |i: int|
        if 0 <= i < ws.len() {
            ws[i] as int
        } else {
            0
        }
}

/// The widths that a full scan of the table yields.
pub open spec fn table_widths(rows: Seq<Seq<Seq<char>>>) -> spec_fn(int) -> int {
    |i: int| col_width(rows, i) as int
}

/// The first output column of a padded row is always the trimmed first
/// cell, whatever the width table holds.
pub proof fn lemma_first_column_trimmed(w: spec_fn(int) -> int, row: Seq<Seq<char>>)
    ensures
        padded_cell(w, row, 0) == trimmed(row[0]),
{
}

/// Pads one row against a width table that dominates it, as `padded_cell`
/// describes.
#[verifier::loop_isolation(false)]
pub fn pad_row(row: &Vec<String>, widths: &Vec<usize>) -> (r: Vec<String>)
    requires
        row@.len() <= widths@.len(),
        forall|i: int|
            0 <= i < row@.len() ==> trimmed(#[trigger] row.deep_view()[i]).len() <= widths@[i],
    ensures
        r@.len() == row@.len(),
        forall|i: int|
            0 <= i < r@.len() ==> #[trigger] r.deep_view()[i] == padded_cell(
                vec_widths(widths@),
                row.deep_view(),
                i,
            ),
{
    let ghost rd = row.deep_view();
    let ghost w = vec_widths(widths@);
    let mut r: Vec<String> = Vec::new();
    let mut i: usize = 0;
    while i < row.len()
        invariant
            rd == row.deep_view(),
            w == vec_widths(widths@),
            row@.len() <= widths@.len(),
            forall|q: int| 0 <= q < row@.len() ==> trimmed(#[trigger] rd[q]).len() <= widths@[q],
            0 <= i <= row@.len(),
            r@.len() == i,
            forall|q: int| 0 <= q < i ==> #[trigger] r.deep_view()[q] == padded_cell(w, rd, q),
        decreases row@.len() - i,
    {
        let ghost old_r = r.deep_view();
        let t = trim_str(row[i].as_str());
        proof {
            assert(rd[i as int] == row@[i as int]@);
            assert(t@ == trimmed(rd[i as int]));
        }
        if i == 0 {
            r.push(t);
            proof {
                assert(r.deep_view()[0] == padded_cell(w, rd, 0));
            }
        } else {
            let tl = t.unicode_len();
            let tp = trim_str(row[i - 1].as_str());
            let tpl = tp.unicode_len();
            proof {
                assert(rd[i - 1] == row@[i - 1]@);
                assert(tp@ == trimmed(rd[i - 1]));
            }
            let padp: usize = if tpl == 0 {
                0
            } else {
                widths[i - 1] - tpl
            };
            let padi: usize = if tl == 0 {
                0
            } else {
                widths[i] - tl
            };
            proof {
                assert(padp == cell_padding(w, rd, i - 1));
                assert(padi == cell_padding(w, rd, i as int));
            }
            let mut cell = make_spaces(padp + 1);
            if padi == 0 {
                let extra = make_spaces(widths[i]);
                cell.append(extra.as_str());
            }
            cell.append(t.as_str());
            r.push(cell);
            proof {
                assert(r.deep_view()[i as int] == cell@);
                assert(cell@ == padded_cell(w, rd, i as int));
            }
        }
        proof {
            assert(forall|q: int| 0 <= q < i ==> r.deep_view()[q] == old_r[q]);
            assert forall|q: int| 0 <= q < i + 1 implies #[trigger] r.deep_view()[q] == padded_cell(
                w,
                rd,
                q,
            ) by {
                if q < i {
                    assert(r.deep_view()[q] == old_r[q]);
                    assert(old_r[q] == padded_cell(w, rd, q));
                } else {
                    assert(q == i);
                    assert(r.deep_view()[q] == padded_cell(w, rd, q));
                }
            }
        }
        i = i + 1;
    }
    r
}

/// Pretty-prints a whole table: measures every column, then pads every
/// row, leaving the row and column counts unchanged.
#[verifier::loop_isolation(false)]
pub fn fixwidth_rows(rows: &Vec<Vec<String>>) -> (out: Vec<Vec<String>>)
    ensures
        out@.len() == rows@.len(),
        forall|k: int|
            0 <= k < rows@.len() ==> #[trigger] out.deep_view()[k] == Seq::new(
                rows.deep_view()[k].len(),
                |i: int| padded_cell(table_widths(rows.deep_view()), rows.deep_view()[k], i),
            ),
{
    let ghost dv = rows.deep_view();
    let w = scan_widths(rows);
    proof {
        assert(vec_widths(w@) =~= table_widths(dv)) by {
            assert forall|i: int| #![trigger vec_widths(w@)(i)] true implies vec_widths(w@)(i)
                == table_widths(dv)(i) by {
                if i < 0 || i >= w@.len() {
                    lemma_col_width_zero(dv, i);
                }
            }
        }
    }
    let mut out: Vec<Vec<String>> = Vec::new();
    let mut k: usize = 0;
    while k < rows.len()
        invariant
            dv == rows.deep_view(),
            w@.len() == max_row_len(dv),
            forall|i: int| 0 <= i < w@.len() ==> w@[i] == col_width(dv, i),
            forall|r: int| 0 <= r < dv.len() ==> (#[trigger] dv[r]).len() <= max_row_len(dv),
            forall|r: int, i: int|
                #![trigger dv[r][i]]
                0 <= r < dv.len() && 0 <= i < dv[r].len() ==> trimmed(dv[r][i]).len() <= col_width(
                    dv,
                    i,
                ),
            vec_widths(w@) == table_widths(dv),
            0 <= k <= rows@.len(),
            out@.len() == k,
            forall|q: int|
                0 <= q < k ==> #[trigger] out.deep_view()[q] == Seq::new(
                    dv[q].len(),
                    |i: int| padded_cell(table_widths(dv), dv[q], i),
                ),
        decreases rows@.len() - k,
    {
        let ghost old_out = out.deep_view();
        let row = &rows[k];
        proof {
            assert(dv[k as int] == row.deep_view());
            assert(row@.len() == dv[k as int].len());
            assert forall|i: int|
                0 <= i < row@.len() implies trimmed(#[trigger] row.deep_view()[i]).len()
                <= w@[i] by {
                assert(row.deep_view()[i] == dv[k as int][i]);
            }
        }
        let p = pad_row(row, &w);
        out.push(p);
        proof {
            assert(forall|q: int| 0 <= q < k ==> out.deep_view()[q] == old_out[q]);
            assert(out.deep_view()[k as int] =~= Seq::new(
                dv[k as int].len(),
                |i: int| padded_cell(table_widths(dv), dv[k as int], i),
            ));
            assert forall|q: int| 0 <= q < k + 1 implies #[trigger] out.deep_view()[q] == Seq::new(
                dv[q].len(),
                |i: int| padded_cell(table_widths(dv), dv[q], i),
            ) by {
                if q < k {
                    assert(out.deep_view()[q] == old_out[q]);
                    assert(old_out[q] == Seq::new(
                        dv[q].len(),
                        |i: int| padded_cell(table_widths(dv), dv[q], i),
                    ));
                } else {
                    assert(q == k);
                }
            }
        }
        k = k + 1;
    }
    out
}

} // verus!
