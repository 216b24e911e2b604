use vstd::prelude::*;

use vstd::slice::slice_subrange;

use crate::bytes_util::bytes_eq;

verus! {

/// The fields of a line: the segments between the leftmost, non-overlapping
/// occurrences of the separator. A line always yields at least one field;
/// adjacent, leading or trailing separators yield empty fields.
pub open spec fn split_spec(line: Seq<u8>, sep: Seq<u8>) -> Seq<Seq<u8>>
    decreases line.len(),
{
    if sep.len() == 0 || line.len() < sep.len() {
        seq![line]
    } else if line.subrange(0, sep.len() as int) == sep {
        seq![Seq::<u8>::empty()] + split_spec(
            line.subrange(sep.len() as int, line.len() as int),
            sep,
        )
    } else {
        let rest = split_spec(line.subrange(1, line.len() as int), sep);
        seq![seq![line[0]] + rest[0]] + rest.subrange(1, rest.len() as int)
    }
}

/// A split yields at least one field.
pub proof fn lemma_split_nonempty(line: Seq<u8>, sep: Seq<u8>)
    ensures
        split_spec(line, sep).len() >= 1,
    decreases line.len(),
{
    if !(sep.len() == 0 || line.len() < sep.len()) {
        if line.subrange(0, sep.len() as int) == sep {
            lemma_split_nonempty(line.subrange(sep.len() as int, line.len() as int), sep);
        } else {
            lemma_split_nonempty(line.subrange(1, line.len() as int), sep);
        }
    }
}

/// A split yields at most one field more than the line has bytes.
pub proof fn lemma_split_count(line: Seq<u8>, sep: Seq<u8>)
    requires
        sep.len() >= 1,
    ensures
        split_spec(line, sep).len() <= line.len() + 1,
    decreases line.len(),
{
    if !(line.len() < sep.len()) {
        if line.subrange(0, sep.len() as int) == sep {
            lemma_split_count(line.subrange(sep.len() as int, line.len() as int), sep);
        } else {
            lemma_split_count(line.subrange(1, line.len() as int), sep);
            lemma_split_nonempty(line.subrange(1, line.len() as int), sep);
        }
    }
}

/// The first field of `s`, grown at the front by `c`.
spec fn glue(c: Seq<u8>, s: Seq<Seq<u8>>) -> Seq<Seq<u8>>
    recommends
        s.len() >= 1,
{
    seq![c + s[0]] + s.subrange(1, s.len() as int)
}

/// Splits a line into its fields on the separator, as [`split_spec`] states.
pub fn split_line(line: &[u8], sep: &[u8]) -> (r: Vec<Vec<u8>>)
    requires
        sep@.len() >= 1,
    ensures
        r.deep_view() == split_spec(line@, sep@),
{
    let n = line.len();
    let m = sep.len();
    let mut done: Vec<Vec<u8>> = Vec::new();
    let mut cur: Vec<u8> = Vec::new();
    let mut i: usize = 0;
    proof {
        assert(line@.subrange(0, n as int) =~= line@);
        lemma_split_nonempty(line@, sep@);
        assert(done.deep_view() + glue(cur@, split_spec(line@, sep@)) =~~= split_spec(
            line@,
            sep@,
        ));
    }
    while m <= n - i
        invariant
            i <= n,
            n == line@.len(),
            m == sep@.len(),
            m >= 1,
            done.deep_view() + glue(
                cur@,
                split_spec(line@.subrange(i as int, n as int), sep@),
            ) == split_spec(line@, sep@),
        decreases n - i,
    {
        let ghost tail = line@.subrange(i as int, n as int);
        proof {
            lemma_split_nonempty(tail, sep@);
        }
        if bytes_eq(slice_subrange(line, i, i + m), sep) {
            let ghost tail2 = line@.subrange(i as int + m, n as int);
            let ghost s2 = split_spec(tail2, sep@);
            let ghost dv0 = done.deep_view();
            let ghost c0 = cur@;
            proof {
                assert(tail.subrange(0, m as int) =~= line@.subrange(i as int, i as int + m));
                assert(tail.subrange(m as int, tail.len() as int) =~= tail2);
                lemma_split_nonempty(tail2, sep@);
                assert(split_spec(tail, sep@) =~~= seq![Seq::<u8>::empty()] + s2);
                assert(glue(c0, split_spec(tail, sep@)) =~~= seq![c0] + s2);
            }
            done.push(cur);
            cur = Vec::new();
            i = i + m;
            proof {
                assert(done.deep_view() =~~= dv0 + seq![c0]);
                assert(glue(cur@, s2) =~~= s2);
                assert(done.deep_view() + glue(
                    cur@,
                    split_spec(line@.subrange(i as int, n as int), sep@),
                ) =~~= split_spec(line@, sep@));
            }
        } else {
            let b = line[i];
            let ghost tail1 = line@.subrange(i as int + 1, n as int);
            let ghost r1 = split_spec(tail1, sep@);
            proof {
                assert(tail.subrange(0, m as int) =~= line@.subrange(i as int, i as int + m));
                assert(tail.subrange(1, tail.len() as int) =~= tail1);
                lemma_split_nonempty(tail1, sep@);
                assert(split_spec(tail, sep@) =~~= seq![seq![tail[0]] + r1[0]] + r1.subrange(
                    1,
                    r1.len() as int,
                ));
                assert(glue(cur@, split_spec(tail, sep@)) =~~= glue(cur@.push(b), r1));
            }
            cur.push(b);
            i = i + 1;
            proof {
                assert(done.deep_view() + glue(
                    cur@,
                    split_spec(line@.subrange(i as int, n as int), sep@),
                ) =~~= split_spec(line@, sep@));
            }
        }
    }
    let ghost tail = line@.subrange(i as int, n as int);
    let ghost cur0 = cur@;
    let ghost done0 = done.deep_view();
    proof {
        assert(split_spec(tail, sep@) =~~= seq![tail]);
        assert(glue(cur0, split_spec(tail, sep@)) =~~= seq![cur0 + tail]);
    }
    let mut j: usize = i;
    while j < n
        invariant
            i <= j <= n,
            n == line@.len(),
            cur@ == cur0 + line@.subrange(i as int, j as int),
        decreases n - j,
    {
        cur.push(line[j]);
        j = j + 1;
        proof {
            assert(cur@ =~= cur0 + line@.subrange(i as int, j as int));
        }
    }
    proof {
        assert(cur@ =~= cur0 + tail);
    }
    done.push(cur);
    proof {
        assert(done.deep_view() =~~= done0 + seq![cur0 + tail]);
        assert(done.deep_view() =~~= split_spec(line@, sep@));
    }
    done
}

} // verus!
