use vstd::prelude::*;
use vstd::string::*;

verus! {

/// `parts` laid end to end with `sep` between each two of them.
pub open spec fn join_with(parts: Seq<Seq<char>>, sep: Seq<char>) -> Seq<char>
    decreases parts.len(),
{
    if parts.len() == 0 {
        Seq::empty()
    } else if parts.len() == 1 {
        parts[0]
    } else {
        join_with(parts.drop_last(), sep) + sep + parts.last()
    }
}

/// Joins `parts` with `sep` between each two of them.
pub fn join(parts: &Vec<String>, sep: &str) -> (r: String)
    ensures
        r@ == join_with(parts.deep_view(), sep@),
{
    let ghost all = parts.deep_view();
    let mut out = String::new();
    let mut i: usize = 0;
    proof {
        assert(all.subrange(0, 0) =~= Seq::<Seq<char>>::empty());
    }
    while i < parts.len()
        invariant
            i <= parts.len(),
            all == parts.deep_view(),
            out@ == join_with(all.subrange(0, i as int), sep@),
        decreases parts.len() - i,
    {
        proof {
            assert(all.subrange(0, i + 1).drop_last() =~= all.subrange(0, i as int));
            assert(all.subrange(0, i + 1).last() == parts[i as int]@);
        }
        if i > 0 {
            out.append(sep);
        } else {
            proof {
                assert(all.subrange(0, 1) =~= seq![parts[0]@]);
            }
        }
        out.append(parts[i].as_str());
        i += 1;
    }
    proof {
        assert(all.subrange(0, i as int) =~= all);
    }
    out
}

/// Cuts `s` at each newline: the lines, without their newlines, which joined
/// with newlines give back `s`.
pub fn split_lines(s: &str) -> (r: Vec<String>)
    ensures
        r@.len() > 0,
        join_with(r.deep_view(), seq!['\n']) == s@,
        forall|k: int| 0 <= k < r@.len() ==> !(#[trigger] r@[k]@).contains('\n'),
{
    let n = s.unicode_len();
    let mut lines: Vec<String> = Vec::new();
    let mut start: usize = 0;
    let mut i: usize = 0;
    while i < n
        invariant
            start <= i <= n,
            n == s@.len(),
            lines@.len() == 0 ==> start == 0,
            lines@.len() > 0 ==> start > 0 && s@[start - 1] == '\n' && join_with(
                lines.deep_view(),
                seq!['\n'],
            ) == s@.subrange(0, start - 1),
            forall|k: int| 0 <= k < lines@.len() ==> !(#[trigger] lines@[k]@).contains('\n'),
            forall|k: int| start <= k < i ==> s@[k] != '\n',
        decreases n - i,
    {
        if s.get_char(i) == '\n' {
            let line = <String as StringExecFns>::from_str(s.substring_char(start, i));
            let ghost before = lines.deep_view();
            lines.push(line);
            proof {
                assert(lines.deep_view() =~= before.push(line@));
                assert(lines.deep_view().drop_last() =~= before);
                if before.len() == 0 {
                    assert(s@.subrange(0, i as int) =~= line@);
                } else {
                    assert(s@.subrange(0, i as int) =~= s@.subrange(0, start - 1) + seq!['\n']
                        + line@);
                }
                assert(!line@.contains('\n')) by {
                    if line@.contains('\n') {
                        let j = choose|j: int| 0 <= j < line@.len() && line@[j] == '\n';
                        assert(s@[start + j] == '\n');
                    }
                }
            }
            start = i + 1;
        }
        i += 1;
    }
    let line = <String as StringExecFns>::from_str(s.substring_char(start, n));
    let ghost before = lines.deep_view();
    lines.push(line);
    proof {
        assert(lines.deep_view() =~= before.push(line@));
        assert(lines.deep_view().drop_last() =~= before);
        if before.len() == 0 {
            assert(s@ =~= line@);
        } else {
            assert(s@ =~= s@.subrange(0, start - 1) + seq!['\n'] + line@);
        }
        assert(!line@.contains('\n')) by {
            if line@.contains('\n') {
                let j = choose|j: int| 0 <= j < line@.len() && line@[j] == '\n';
                assert(s@[start + j] == '\n');
            }
        }
    }
    lines
}

} // verus!
