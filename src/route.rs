use crate::item::Loaded;
use vstd::prelude::*;

verus! {

/// Where the last named segment of `p` ends: trailing slashes are not part
/// of it.
pub open spec fn name_end(p: Seq<char>) -> int
    decreases p.len(),
{
    if p.len() > 0 && p.last() == '/' {
        name_end(p.drop_last())
    } else {
        p.len() as int
    }
}

/// `i` is the position of the dot that starts the extension of the file named
/// by `p`: the last dot of the last named segment, which is not that
/// segment's first character, in a segment that is not `..`.
pub open spec fn is_extension_dot(p: Seq<char>, i: int) -> bool {
    let e = name_end(p);
    &&& 0 < i < e
    &&& p[i] == '.'
    &&& p[i - 1] != '/'
    &&& forall|k: int| i < k < e ==> p[k] != '.' && p[k] != '/'
    &&& !(i == e - 1 && p[i - 1] == '.' && (i == 1 || p[i - 2] == '/'))
}

/// The file named by `p` has no extension, or its extension is exactly `md`.
pub open spec fn is_markdown_path(p: Seq<char>) -> bool {
    (forall|i: int| !is_extension_dot(p, i)) || (exists|i: int|
        is_extension_dot(p, i) && p.subrange(i + 1, name_end(p)) == seq!['m', 'd'])
}

/// The branch an item takes: items that failed to load, and markdown or
/// extensionless files, go to the markdown branch; everything else is code.
pub open spec fn goes_to_markdown(x: Loaded) -> bool {
    match x {
        Err(_) => true,
        Ok(item) => is_markdown_path(item.path@),
    }
}

pub open spec fn markdown_pred() -> spec_fn(Loaded) -> bool {
    |x: Loaded| goes_to_markdown(x)
}

pub open spec fn code_pred() -> spec_fn(Loaded) -> bool {
    |x: Loaded| !goes_to_markdown(x)
}

proof fn lemma_extension_dot_unique(p: Seq<char>, i: int, j: int)
    requires
        is_extension_dot(p, i),
        is_extension_dot(p, j),
    ensures
        i == j,
{
    if i < j {
        assert(p[j] != '.');
    } else if j < i {
        assert(p[i] != '.');
    }
}

proof fn lemma_name_end_bounds(p: Seq<char>)
    ensures
        0 <= name_end(p) <= p.len(),
    decreases p.len(),
{
    if p.len() > 0 && p.last() == '/' {
        lemma_name_end_bounds(p.drop_last());
    }
}

/// Where the last named segment of `p` ends.
pub fn name_end_of(p: &str) -> (r: usize)
    ensures
        r == name_end(p@),
{
    let n = p.unicode_len();
    let mut e: usize = n;
    proof {
        assert(p@.subrange(0, n as int) =~= p@);
    }
    while e > 0 && p.get_char(e - 1) == '/'
        invariant
            e <= n,
            n == p@.len(),
            name_end(p@) == name_end(p@.subrange(0, e as int)),
        decreases e,
    {
        proof {
            assert(p@.subrange(0, e as int).drop_last() =~= p@.subrange(0, e - 1));
        }
        e -= 1;
    }
    e
}

/// Finds the dot that starts the extension of the file named by `p`.
pub fn extension_dot(p: &str) -> (r: Option<usize>)
    ensures
        match r {
            Some(i) => is_extension_dot(p@, i as int),
            None => forall|i: int| !is_extension_dot(p@, i),
        },
{
    let e = name_end_of(p);
    proof {
        lemma_name_end_bounds(p@);
    }
    let mut i: usize = e;
    while i > 0
        invariant
            i <= e,
            e == name_end(p@),
            e <= p@.len(),
            forall|k: int| i <= k < e ==> p@[k] != '.' && p@[k] != '/',
        decreases i,
    {
        let c = p.get_char(i - 1);
        if c == '/' {
            assert forall|j: int| !is_extension_dot(p@, j) by {
                if is_extension_dot(p@, j) && j < i - 1 {
                    assert(p@[i - 1] != '/');
                }
            }
            return None;
        }
        if c == '.' {
            let d = i - 1;
            let dotdot = d == e - 1 && d > 0 && p.get_char(d - 1) == '.' && (d == 1 || p.get_char(
                d - 2,
            ) == '/');
            if d > 0 && p.get_char(d - 1) != '/' && !dotdot {
                return Some(d);
            }
            assert forall|j: int| !is_extension_dot(p@, j) by {
                if is_extension_dot(p@, j) && j < d {
                    assert(p@[d as int] != '.');
                }
            }
            return None;
        }
        i -= 1;
    }
    None
}

/// Whether the file named by `p` belongs to the markdown branch.
pub fn is_markdown_file(p: &str) -> (r: bool)
    ensures
        r == is_markdown_path(p@),
{
    match extension_dot(p) {
        None => true,
        Some(i) => {
            let n = name_end_of(p);
            proof {
                lemma_name_end_bounds(p@);
            }
            let r = n - i == 3 && p.get_char(i + 1) == 'm' && p.get_char(i + 2) == 'd';
            proof {
                let ext = p@.subrange(i + 1, n as int);
                if r {
                    assert(ext =~= seq!['m', 'd']);
                } else {
                    assert forall|j: int|
                        is_extension_dot(p@, j) implies p@.subrange(j + 1, n as int) != seq![
                        'm',
                        'd',
                    ] by {
                        lemma_extension_dot_unique(p@, i as int, j);
                        if ext.len() == 2 {
                            assert(ext[0] == p@[i + 1]);
                            assert(ext[1] == p@[i + 2]);
                        }
                    }
                }
            }
            r
        },
    }
}

/// The routing predicate of the ingestion pipeline.
pub fn routes_to_markdown(x: &Loaded) -> (r: bool)
    ensures
        r == goes_to_markdown(*x),
{
    match x {
        Err(_) => true,
        Ok(item) => is_markdown_file(item.path.as_str()),
    }
}

/// Filtering a sequence with one more element at its end.
pub proof fn lemma_filter_push<A>(s: Seq<A>, x: A, f: spec_fn(A) -> bool)
    ensures
        s.push(x).filter(f) == (if f(x) {
            s.filter(f).push(x)
        } else {
            s.filter(f)
        }),
{
    reveal(Seq::filter);
    assert(s.push(x).drop_last() =~= s);
}

/// Partitions the loaded items into the markdown branch and the code branch.
/// Each branch keeps the order in which the items arrived.
pub fn split_by_kind(items: Vec<Loaded>) -> (r: (Vec<Loaded>, Vec<Loaded>))
    ensures
        r.0@ == items@.filter(markdown_pred()),
        r.1@ == items@.filter(code_pred()),
{
    let ghost all = items@;
    let mut rest = items;
    let mut markdown: Vec<Loaded> = Vec::new();
    let mut code: Vec<Loaded> = Vec::new();
    proof {
        reveal(Seq::filter);
        assert(all.subrange(0, 0).filter(markdown_pred()) =~= Seq::<Loaded>::empty());
        assert(all.subrange(0, 0).filter(code_pred()) =~= Seq::<Loaded>::empty());
    }
    while rest.len() > 0
        invariant
            rest.len() <= all.len(),
            rest@ == all.subrange(all.len() - rest.len(), all.len() as int),
            markdown@ == all.subrange(0, all.len() - rest.len()).filter(markdown_pred()),
            code@ == all.subrange(0, all.len() - rest.len()).filter(code_pred()),
        decreases rest.len(),
    {
        let ghost k = all.len() - rest.len();
        let x = rest.remove(0);
        proof {
            assert(all.subrange(0, k + 1) =~= all.subrange(0, k).push(x));
            lemma_filter_push(all.subrange(0, k), x, markdown_pred());
            lemma_filter_push(all.subrange(0, k), x, code_pred());
            assert(rest@ =~= all.subrange(k + 1, all.len() as int));
        }
        if routes_to_markdown(&x) {
            markdown.push(x);
        } else {
            code.push(x);
        }
    }
    proof {
        assert(all.subrange(0, all.len() as int) =~= all);
    }
    (markdown, code)
}

/// Recombines two branches into one stream: everything of `first`, then
/// everything of `second`.
pub fn merge<T>(first: Vec<T>, second: Vec<T>) -> (r: Vec<T>)
    ensures
        r@ == first@ + second@,
{
    let mut r = first;
    let mut rest = second;
    r.append(&mut rest);
    r
}

proof fn lemma_partition_multiset<A>(s: Seq<A>, f: spec_fn(A) -> bool, g: spec_fn(A) -> bool)
    requires
        forall|x: A| #[trigger] g(x) == !f(x),
    ensures
        s.filter(f).to_multiset().add(s.filter(g).to_multiset()) =~= s.to_multiset(),
    decreases s.len(),
{
    broadcast use vstd::seq_lib::group_to_multiset_ensures;

    if s.len() == 0 {
        reveal(Seq::filter);
    } else {
        let t = s.drop_last();
        let x = s.last();
        assert(t.push(x) =~= s);
        lemma_partition_multiset(t, f, g);
        lemma_filter_push(t, x, f);
        lemma_filter_push(t, x, g);
    }
}

/// Branching and merging lose and duplicate nothing: every item lands in
/// exactly one branch, the one its route names, and merging the two branches
/// gives back exactly the items that entered, as a multiset.
pub proof fn lemma_split_merge_complete(items: Seq<Loaded>)
    ensures
        forall|i: int|
            0 <= i < items.len() ==> (items.filter(markdown_pred()).contains(items[i])
                <==> goes_to_markdown(items[i])) && (items.filter(code_pred()).contains(items[i])
                <==> !goes_to_markdown(items[i])),
        (items.filter(markdown_pred()) + items.filter(code_pred())).to_multiset()
            =~= items.to_multiset(),
{
    broadcast use vstd::seq_lib::group_to_multiset_ensures;

    assert forall|i: int| 0 <= i < items.len() implies (items.filter(
        markdown_pred(),
    ).contains(items[i]) <==> goes_to_markdown(items[i])) && (items.filter(code_pred()).contains(
        items[i],
    ) <==> !goes_to_markdown(items[i])) by {
        broadcast use vstd::seq_lib::group_filter_ensures;

        assert(items.contains(items[i]));
    }
    lemma_partition_multiset(items, markdown_pred(), code_pred());
    vstd::seq_lib::lemma_multiset_commutative(
        items.filter(markdown_pred()),
        items.filter(code_pred()),
    );
}

} // verus!
