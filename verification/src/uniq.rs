//! The duplicate collapser: merges runs of consecutive equal lines (equal
//! after their trailing terminators are stripped) into groups with counts,
//! and renders each group with an optional count annotation.

use vstd::prelude::*;

use crate::text::{
    byte_views, concat_lines, copy_bytes, format_number_bytes, lemma_concat_lines_push,
    spec_rjust_bytes, strip_term,
};

verus! {

/// A run of consecutive equal lines: its representative text and how many
/// lines the run held.
pub struct DuplicateGroup {
    pub count: usize,
    pub line: Vec<u8>,
}

/// The mathematical shape of a group sequence: count and line content.
pub open spec fn group_models(gs: Seq<DuplicateGroup>) -> Seq<(nat, Seq<u8>)> {
    gs.map_values(|g: DuplicateGroup| (g.count as nat, g.line@))
}

/// The groups of a line stream: each new line either extends the last
/// group, when it equals the previous line with trailing terminators
/// stripped, or opens a group of its own. The representative of a group is
/// the last line of its run.
pub open spec fn spec_groups(ls: Seq<Seq<u8>>) -> Seq<(nat, Seq<u8>)>
    decreases ls.len(),
{
    if ls.len() == 0 {
        Seq::empty()
    } else {
        let g = spec_groups(ls.drop_last());
        let l = ls.last();
        if ls.len() >= 2 && strip_term(ls[ls.len() - 2]) == strip_term(l) {
            g.update(g.len() - 1, ((g[g.len() - 1].0 + 1) as nat, l))
        } else {
            g.push((1nat, l))
        }
    }
}

pub proof fn lemma_groups_last(ls: Seq<Seq<u8>>)
    requires
        ls.len() > 0,
    ensures
        spec_groups(ls).len() >= 1,
        spec_groups(ls).last().1 == ls.last(),
    decreases ls.len(),
{
    if ls.len() >= 2 {
        lemma_groups_last(ls.drop_last());
    }
}

/// The total line count held by a group sequence.
pub open spec fn sum_counts(gs: Seq<(nat, Seq<u8>)>) -> nat
    decreases gs.len(),
{
    if gs.len() == 0 {
        0
    } else {
        sum_counts(gs.drop_last()) + gs.last().0
    }
}

/// The sum of the per-group counts equals the number of input lines.
pub proof fn lemma_group_counts_total(ls: Seq<Seq<u8>>)
    ensures
        sum_counts(spec_groups(ls)) == ls.len(),
    decreases ls.len(),
{
    if ls.len() > 0 {
        lemma_group_counts_total(ls.drop_last());
        let g = spec_groups(ls.drop_last());
        let l = ls.last();
        if ls.len() >= 2 && strip_term(ls[ls.len() - 2]) == strip_term(l) {
            lemma_groups_last(ls.drop_last());
            let g2 = g.update(g.len() - 1, ((g[g.len() - 1].0 + 1) as nat, l));
            assert(g2.drop_last() =~= g.drop_last());
            assert(g2.last().0 == g.last().0 + 1);
        } else {
            assert(g.push((1nat, l)).drop_last() =~= g);
        }
    }
}

pub proof fn lemma_count_le_sum(gs: Seq<(nat, Seq<u8>)>, k: int)
    requires
        0 <= k < gs.len(),
    ensures
        gs[k].0 <= sum_counts(gs),
    decreases gs.len(),
{
    if k < gs.len() - 1 {
        lemma_count_le_sum(gs.drop_last(), k);
    }
}

/// `l` written out `n` times.
pub open spec fn repeat_line(l: Seq<u8>, n: nat) -> Seq<u8>
    decreases n,
{
    if n == 0 {
        Seq::empty()
    } else {
        repeat_line(l, (n - 1) as nat) + l
    }
}

/// The stream a group sequence stands for: each representative written out
/// as many times as its count.
pub open spec fn expand_groups(gs: Seq<(nat, Seq<u8>)>) -> Seq<u8>
    decreases gs.len(),
{
    if gs.len() == 0 {
        Seq::empty()
    } else {
        expand_groups(gs.drop_last()) + repeat_line(gs.last().1, gs.last().0)
    }
}

proof fn lemma_expand_update_last(g: Seq<(nat, Seq<u8>)>, l: Seq<u8>)
    requires
        g.len() >= 1,
        g.last().1 == l,
    ensures
        expand_groups(g.update(g.len() - 1, ((g.last().0 + 1) as nat, l))) == expand_groups(g) + l,
{
    let c = g.last().0;
    let g2 = g.update(g.len() - 1, ((c + 1) as nat, l));
    assert(g2.drop_last() =~= g.drop_last());
    assert(g2.last().0 == c + 1 && g2.last().1 == l);
    assert(repeat_line(l, (c + 1) as nat) == repeat_line(l, c) + l);
    assert(expand_groups(g2) == expand_groups(g2.drop_last()) + repeat_line(l, (c + 1) as nat));
    assert(expand_groups(g) == expand_groups(g.drop_last()) + repeat_line(l, c));
    assert(expand_groups(g2) =~= expand_groups(g) + l);
}

proof fn lemma_expand_push(g: Seq<(nat, Seq<u8>)>, l: Seq<u8>)
    ensures
        expand_groups(g.push((1nat, l))) == expand_groups(g) + l,
{
    let g2 = g.push((1nat, l));
    assert(g2.drop_last() =~= g);
    assert(g2.last().0 == 1 && g2.last().1 == l);
    assert(repeat_line(l, 0) == Seq::<u8>::empty());
    assert(repeat_line(l, 1nat) == repeat_line(l, 0) + l);
    assert(repeat_line(l, 1nat) =~= l);
    assert(expand_groups(g2) =~= expand_groups(g) + l);
}

/// Writing each group's representative out count times reconstructs the
/// concatenated input, provided adjacent lines that are equal after
/// terminator stripping are equal outright (otherwise a run may mix
/// different raw spellings and only the last survives).
#[verifier::rlimit(50)]
pub proof fn lemma_collapse_round_trip(ls: Seq<Seq<u8>>)
    requires
        forall|i: int|
            0 <= i && i + 1 < ls.len() && strip_term(#[trigger] ls[i]) == strip_term(ls[i + 1])
                ==> ls[i] == ls[i + 1],
    ensures
        expand_groups(spec_groups(ls)) == concat_lines(ls),
    decreases ls.len(),
{
    if ls.len() == 0 {
        assert(expand_groups(spec_groups(ls)) =~= concat_lines(ls));
    } else {
        let prefix = ls.drop_last();
        assert forall|i: int|
            0 <= i && i + 1 < prefix.len() && strip_term(#[trigger] prefix[i]) == strip_term(
                prefix[i + 1],
            ) implies prefix[i] == prefix[i + 1] by {
            assert(prefix[i] == ls[i]);
            assert(prefix[i + 1] == ls[i + 1]);
        }
        lemma_collapse_round_trip(prefix);
        let g = spec_groups(prefix);
        let l = ls.last();
        assert(prefix.push(l) =~= ls);
        lemma_concat_lines_push(prefix, l);
        assert(concat_lines(ls) == concat_lines(prefix) + l);
        if ls.len() >= 2 && strip_term(ls[ls.len() - 2]) == strip_term(l) {
            lemma_groups_last(prefix);
            assert(ls[ls.len() - 2] == ls[ls.len() - 1]);
            assert(g.last().1 == prefix.last());
            assert(g.last().1 == l);
            lemma_expand_update_last(g, l);
            assert(spec_groups(ls) == g.update(g.len() - 1, ((g[g.len() - 1].0 + 1) as nat, l)));
            assert(g[g.len() - 1] == g.last());
        } else {
            lemma_expand_push(g, l);
            assert(spec_groups(ls) == g.push((1nat, l)));
        }
    }
}

fn stripped_len(v: &Vec<u8>) -> (n: usize)
    ensures
        n <= v@.len(),
        n == strip_term(v@).len(),
        strip_term(v@) == v@.take(n as int),
{
    let mut n = v.len();
    proof {
        assert(v@.take(v.len() as int) =~= v@);
    }
    while n > 0 && (v[n - 1] == 10 || v[n - 1] == 13)
        invariant
            n <= v.len(),
            strip_term(v@) == strip_term(v@.take(n as int)),
        decreases n,
    {
        proof {
            assert(v@.take(n as int).last() == v@[n - 1]);
            assert(v@.take(n as int).drop_last() =~= v@.take(n - 1));
        }
        n -= 1;
    }
    proof {
        if n > 0 {
            assert(v@.take(n as int).last() == v@[n - 1]);
        }
        assert(strip_term(v@.take(n as int)) == v@.take(n as int));
    }
    n
}

/// Whether two lines are equal once their trailing terminators are
/// stripped: the collapser's notion of a duplicate.
pub fn strip_eq(a: &Vec<u8>, b: &Vec<u8>) -> (r: bool)
    ensures
        r == (strip_term(a@) == strip_term(b@)),
{
    let na = stripped_len(a);
    let nb = stripped_len(b);
    if na != nb {
        proof {
            assert(strip_term(a@).len() != strip_term(b@).len());
        }
        return false;
    }
    let mut j: usize = 0;
    while j < na
        invariant
            j <= na,
            na == nb,
            na <= a.len(),
            nb <= b.len(),
            strip_term(a@) == a@.take(na as int),
            strip_term(b@) == b@.take(nb as int),
            forall|k: int| 0 <= k < j ==> a@[k] == b@[k],
        decreases na - j,
    {
        if a[j] != b[j] {
            proof {
                assert(strip_term(a@)[j as int] != strip_term(b@)[j as int]);
            }
            return false;
        }
        j += 1;
    }
    proof {
        assert(strip_term(a@) =~= strip_term(b@));
    }
    true
}

/// Collapses a line stream into its groups of consecutive duplicates, in
/// first-seen order.
pub fn collapse(lines: &Vec<Vec<u8>>) -> (groups: Vec<DuplicateGroup>)
    ensures
        group_models(groups@) == spec_groups(byte_views(lines@)),
{
    let ghost bv = byte_views(lines@);
    let mut groups: Vec<DuplicateGroup> = Vec::new();
    let mut i: usize = 0;
    proof {
        assert(bv.take(0) =~= Seq::<Seq<u8>>::empty());
        assert(group_models(groups@) =~= spec_groups(bv.take(0)));
    }
    while i < lines.len()
        invariant
            i <= lines.len(),
            bv == byte_views(lines@),
            group_models(groups@) == spec_groups(bv.take(i as int)),
            groups@.len() > 0 <==> i > 0,
        decreases lines.len() - i,
    {
        let line = copy_bytes(&lines[i]);
        proof {
            assert(bv.take(i + 1).drop_last() =~= bv.take(i as int));
            assert(bv.take(i + 1).last() == lines@[i as int]@);
        }
        let extend = if i > 0 {
            proof {
                assert(bv.take(i + 1)[i - 1] == lines@[i - 1]@);
            }
            strip_eq(&lines[i - 1], &lines[i])
        } else {
            false
        };
        if extend {
            proof {
                lemma_group_counts_total(bv.take(i as int));
                lemma_count_le_sum(spec_groups(bv.take(i as int)), groups@.len() - 1);
            }
            let popped = groups.pop();
            match popped {
                Some(g) => {
                    groups.push(DuplicateGroup { count: g.count + 1, line });
                    proof {
                        assert(group_models(groups@) =~= spec_groups(bv.take(i + 1)));
                    }
                },
                None => {
                    proof {
                        assert(false);
                    }
                },
            }
        } else {
            groups.push(DuplicateGroup { count: 1, line });
            proof {
                assert(group_models(groups@) =~= spec_groups(bv.take(i + 1)));
            }
        }
        i += 1;
    }
    proof {
        assert(bv.take(i as int) =~= bv);
    }
    groups
}

/// A rendered group: when the count annotation is on, the count
/// right-justified to at least four bytes and one space stand before the
/// representative line; otherwise the line alone.
pub open spec fn spec_render(count: nat, line: Seq<u8>, show_count: bool) -> Seq<u8> {
    if show_count {
        spec_rjust_bytes(count, 4) + seq![32u8] + line
    } else {
        line
    }
}

/// Renders one group for output.
pub fn render_group(g: &DuplicateGroup, show_count: bool) -> (out: Vec<u8>)
    ensures
        out@ == spec_render(g.count as nat, g.line@, show_count),
{
    if show_count {
        let mut out = format_number_bytes(g.count, 4);
        out.push(32u8);
        let mut j: usize = 0;
        while j < g.line.len()
            invariant
                j <= g.line.len(),
                out@ =~= spec_rjust_bytes(g.count as nat, 4) + seq![32u8] + g.line@.take(j as int),
            decreases g.line.len() - j,
        {
            out.push(g.line[j]);
            j += 1;
            assert(out@ =~= spec_rjust_bytes(g.count as nat, 4) + seq![32u8] + g.line@.take(
                j as int,
            ));
        }
        proof {
            assert(g.line@.take(g.line@.len() as int) =~= g.line@);
        }
        out
    } else {
        copy_bytes(&g.line)
    }
}

/// The collapser's finished configuration: the input, the optional output
/// path, and whether counts are annotated.
pub struct Config {
    pub in_file: String,
    pub out_file: Option<String>,
    pub count: bool,
}

} // verus!
