//! Unix paths, as rows of bytes, and the components that they are made of.

use vstd::prelude::*;

verus! {

/// The byte that separates the components of a path.
pub const SEPARATOR: u8 = 0x2f;

/// The byte of the component `.`.
pub const DOT: u8 = 0x2e;

/// Where the piece of `path` that begins at `from` ends: at the next separator, or with the path.
pub open spec fn piece_end(path: Seq<u8>, from: int) -> int
    decreases path.len() - from,
{
    if from < 0 || from >= path.len() || path[from] == SEPARATOR {
        from
    } else {
        piece_end(path, from + 1)
    }
}

/// A piece that counts: neither nothing, as between two separators, nor `.`.
pub open spec fn is_name(piece: Seq<u8>) -> bool {
    piece.len() > 0 && piece != seq![DOT]
}

/// Where the names of a path lie, from a piece that begins at `from` on.
pub open spec fn name_spans(path: Seq<u8>, from: int) -> Seq<(int, int)>
    decreases path.len() - from,
    when 0 <= from <= path.len()
    via name_spans_decreases
{
    let end = piece_end(path, from);
    let first = if is_name(path.subrange(from, end)) {
        seq![(from, end)]
    } else {
        Seq::empty()
    };
    if end < path.len() {
        first + name_spans(path, end + 1)
    } else {
        first
    }
}

#[via_fn]
proof fn name_spans_decreases(path: Seq<u8>, from: int) {
    lemma_piece_end(path, from);
}

/// The path begins with a component of its own: the root, or a `.` that stands for the directory
/// that a relative path starts from.
pub open spec fn has_lead(path: Seq<u8>) -> bool {
    &&& path.len() > 0
    &&& path[0] == SEPARATOR || path.subrange(0, piece_end(path, 0)) == seq![DOT]
}

/// Where the components of a path lie. Repeated separators, a separator at the end, and every `.`
/// but one at the beginning do not count.
pub open spec fn component_spans(path: Seq<u8>) -> Seq<(int, int)> {
    if has_lead(path) {
        seq![(0int, 1int)] + name_spans(path, 0)
    } else {
        name_spans(path, 0)
    }
}

/// The components of a path, from left to right; that of the root is the separator itself.
pub open spec fn components(path: Seq<u8>) -> Seq<Seq<u8>> {
    component_spans(path).map_values(|s: (int, int)| path.subrange(s.0, s.1))
}

/// `path` is `base`, or lies below it: the components of `base` are the first ones of `path`.
pub open spec fn is_within(path: Seq<u8>, base: Seq<u8>) -> bool {
    components(base).is_prefix_of(components(path))
}

/// The path without its last component, up to the end of the one before it. The root has no parent,
/// nor has a path without components.
pub open spec fn parent_of(path: Seq<u8>) -> Option<Seq<u8>> {
    let spans = component_spans(path);
    let n = spans.len();
    if n == 0 || n == 1 && path[0] == SEPARATOR {
        None
    } else if n == 1 {
        Some(Seq::empty())
    } else {
        Some(path.take(spans[n - 2].1))
    }
}

/// A piece ends within the path, at the first separator from its beginning on.
pub proof fn lemma_piece_end(path: Seq<u8>, from: int)
    requires
        0 <= from <= path.len(),
    ensures
        from <= piece_end(path, from) <= path.len(),
        piece_end(path, from) < path.len() ==> path[piece_end(path, from)] == SEPARATOR,
        forall|i: int| from <= i < piece_end(path, from) ==> path[i] != SEPARATOR,
    decreases path.len() - from,
{
    if from < path.len() && path[from] != SEPARATOR {
        lemma_piece_end(path, from + 1);
    }
}

/// The first separator fixes the end of the piece.
proof fn lemma_piece_end_is(path: Seq<u8>, from: int, end: int)
    requires
        0 <= from <= end <= path.len(),
        end < path.len() ==> path[end] == SEPARATOR,
        forall|i: int| from <= i < end ==> path[i] != SEPARATOR,
    ensures
        piece_end(path, from) == end,
{
    lemma_piece_end(path, from);
    let e = piece_end(path, from);
    if e < end {
        assert(path[e] != SEPARATOR);
    } else if end < e {
        assert(path[end] != SEPARATOR);
    }
}

/// Names lie one behind the other within the path, and each ends where its piece does.
proof fn lemma_name_spans(path: Seq<u8>, from: int)
    requires
        0 <= from <= path.len(),
    ensures
        forall|i: int|
            0 <= i < name_spans(path, from).len() ==> {
                let s = #[trigger] name_spans(path, from)[i];
                from <= s.0 < s.1 <= path.len()
            },
        forall|i: int, j: int|
            0 <= i < j < name_spans(path, from).len() ==> (#[trigger] name_spans(path, from)[i]).1
                < (#[trigger] name_spans(path, from)[j]).0,
    decreases path.len() - from,
{
    lemma_piece_end(path, from);
    let end = piece_end(path, from);
    if end < path.len() {
        lemma_name_spans(path, end + 1);
        let rest = name_spans(path, end + 1);
        if is_name(path.subrange(from, end)) {
            assert(name_spans(path, from) =~= seq![(from, end)] + rest);
        } else {
            assert(name_spans(path, from) =~= rest);
        }
    }
}

/// Cut behind one of its names, a path keeps its names up to that one.
proof fn lemma_name_spans_of_prefix(path: Seq<u8>, from: int, m: int)
    requires
        0 <= from <= path.len(),
        0 <= m < name_spans(path, from).len(),
    ensures
        name_spans(path.take(name_spans(path, from)[m].1), from) == name_spans(path, from).take(
            m + 1,
        ),
    decreases path.len() - from,
{
    lemma_name_spans(path, from);
    lemma_piece_end(path, from);
    let spans = name_spans(path, from);
    let end = piece_end(path, from);
    let k = spans[m].1;
    let cut = path.take(k);
    let named = is_name(path.subrange(from, end));
    if named && m == 0 {
        assert(k == end);
        lemma_piece_end_is(cut, from, end);
        assert(cut.subrange(from, end) =~= path.subrange(from, end));
        assert(name_spans(cut, from) =~= spans.take(1));
    } else {
        let rest = name_spans(path, end + 1);
        let r = if named {
            m - 1
        } else {
            m
        };
        assert(end < path.len());
        if named {
            assert(spans =~= seq![(from, end)] + rest);
        } else {
            assert(spans =~= rest);
        }
        lemma_name_spans(path, end + 1);
        assert(rest[r] == spans[m]);
        lemma_name_spans_of_prefix(path, end + 1, r);
        lemma_piece_end_is(cut, from, end);
        assert(cut.subrange(from, end) =~= path.subrange(from, end));
        assert(name_spans(cut, from) =~= spans.take(m + 1));
    }
}

/// No name ends before the first piece does.
proof fn lemma_first_span(path: Seq<u8>, from: int)
    requires
        0 <= from <= path.len(),
    ensures
        forall|i: int|
            0 <= i < name_spans(path, from).len() ==> (#[trigger] name_spans(path, from)[i]).1
                >= piece_end(path, from),
{
    lemma_piece_end(path, from);
    let end = piece_end(path, from);
    if end < path.len() {
        let rest = name_spans(path, end + 1);
        lemma_name_spans(path, end + 1);
        if is_name(path.subrange(from, end)) {
            assert(name_spans(path, from) =~= seq![(from, end)] + rest);
        } else {
            assert(name_spans(path, from) =~= rest);
        }
    }
}

/// Where a path's components lie within its first `k` bytes, but for the last one, those are the
/// components of these bytes.
proof fn lemma_cut_components(path: Seq<u8>, k: int)
    requires
        0 <= k <= path.len(),
        component_spans(path).len() > 0,
        component_spans(path.take(k)) == component_spans(path).drop_last(),
        forall|i: int|
            0 <= i < component_spans(path).len() - 1 ==> {
                let s = #[trigger] component_spans(path)[i];
                0 <= s.0 <= s.1 <= k
            },
    ensures
        components(path.take(k)) == components(path).drop_last(),
{
    let cut = path.take(k);
    let spans = component_spans(path);
    assert forall|i: int| 0 <= i < spans.len() - 1 implies components(cut)[i] == components(
        path,
    ).drop_last()[i] by {
        let s = spans[i];
        assert(component_spans(cut)[i] == s);
        assert(cut.subrange(s.0, s.1) =~= path.subrange(s.0, s.1));
    }
    assert(components(cut) =~= components(path).drop_last());
}

/// The first byte of a path that has a component of its own in front is that component.
proof fn lemma_lead_alone(path: Seq<u8>)
    requires
        has_lead(path),
    ensures
        component_spans(path.take(1)) == seq![(0int, 1int)],
{
    let lead = path.take(1);
    lemma_piece_end(path, 0);
    if path[0] == SEPARATOR {
        lemma_piece_end_is(lead, 0, 0);
        lemma_piece_end_is(lead, 1, 1);
        assert(name_spans(lead, 1) =~= Seq::empty());
    } else {
        assert(path.subrange(0, piece_end(path, 0))[0] == DOT);
        lemma_piece_end_is(lead, 0, 1);
        assert(lead.subrange(0, 1) =~= seq![DOT]);
    }
    assert(name_spans(lead, 0) =~= Seq::empty());
    assert(component_spans(lead) =~= seq![(0int, 1int)]);
}

/// Cut behind one of its names, a path keeps its components up to that one.
proof fn lemma_component_spans_of_prefix(path: Seq<u8>, m: int)
    requires
        0 <= m < name_spans(path, 0).len(),
    ensures
        ({
            let cut = path.take(name_spans(path, 0)[m].1);
            &&& has_lead(cut) == has_lead(path)
            &&& name_spans(cut, 0) == name_spans(path, 0).take(m + 1)
        }),
{
    let k = name_spans(path, 0)[m].1;
    let cut = path.take(k);
    let end = piece_end(path, 0);
    lemma_name_spans(path, 0);
    lemma_first_span(path, 0);
    lemma_piece_end(path, 0);
    lemma_name_spans_of_prefix(path, 0, m);
    lemma_piece_end_is(cut, 0, end);
    assert(cut.subrange(0, end) =~= path.subrange(0, end));
}

/// The components of a path's parent are those of the path without the last.
pub proof fn law_parent_drops_last_component(path: Seq<u8>)
    ensures
        parent_of(path) matches Some(parent) ==> components(parent) == components(path).drop_last(),
{
    let spans = component_spans(path);
    let names = name_spans(path, 0);
    let n = spans.len() as int;
    lemma_name_spans(path, 0);
    if let Some(parent) = parent_of(path) {
        if n == 1 {
            assert(path.take(0) =~= parent);
            assert(piece_end(parent, 0) == 0);
            assert(component_spans(parent) =~= spans.drop_last());
            lemma_cut_components(path, 0);
        } else if n == 2 && has_lead(path) {
            lemma_lead_alone(path);
            assert(component_spans(parent) =~= spans.drop_last());
            lemma_cut_components(path, 1);
        } else {
            let m = if has_lead(path) {
                n - 3
            } else {
                n - 2
            };
            lemma_component_spans_of_prefix(path, m);
            assert(spans[n - 2] == names[m]);
            assert(component_spans(parent) =~= spans.drop_last());
            assert forall|i: int| 0 <= i < n - 1 implies {
                let s = #[trigger] spans[i];
                0 <= s.0 <= s.1 <= names[m].1
            } by {
                if has_lead(path) && i > 0 {
                    assert(spans[i] == names[i - 1]);
                }
            }
            lemma_cut_components(path, names[m].1);
        }
    }
}

/// A path lies within itself, and what lies within a path that lies within a third lies within the
/// third.
pub proof fn law_within_is_a_preorder(path: Seq<u8>, base: Seq<u8>, root: Seq<u8>)
    ensures
        is_within(path, path),
        is_within(path, base) && is_within(base, root) ==> is_within(path, root),
{
    assert(components(path).subrange(0, components(path).len() as int) =~= components(path));
    if is_within(path, base) && is_within(base, root) {
        let n = components(root).len() as int;
        assert(components(path).subrange(0, n) =~= components(base).subrange(0, n)) by {
            assert forall|i: int| 0 <= i < n implies components(path)[i] == components(base)[i] by {
                assert(components(path).subrange(0, components(base).len() as int)[i]
                    == components(path)[i]);
            }
        }
    }
}

/// A path lies within its parent.
pub proof fn law_path_lies_within_parent(path: Seq<u8>)
    ensures
        parent_of(path) matches Some(parent) ==> is_within(path, parent),
{
    law_parent_drops_last_component(path);
    if parent_of(path) is Some {
        let n = components(path).len() as int;
        assert(components(path).drop_last() =~= components(path).subrange(0, n - 1));
    }
}

/// Spans of machine integers as spans.
spec fn as_spans(spans: Seq<(usize, usize)>) -> Seq<(int, int)> {
    spans.map_values(|s: (usize, usize)| (s.0 as int, s.1 as int))
}

/// Whether a piece of a path counts.
fn counts(path: &[u8], from: usize, end: usize) -> (res: bool)
    requires
        from <= end <= path@.len(),
    ensures
        res == is_name(path@.subrange(from as int, end as int)),
{
    let ghost piece = path@.subrange(from as int, end as int);
    if end - from == 0 {
        false
    } else if end - from == 1 && path[from] == DOT {
        assert(piece =~= seq![DOT]);
        false
    } else {
        assert(piece.len() == 1 ==> piece[0] == path@[from as int]);
        true
    }
}

/// Where the piece of `path` that begins at `from` ends.
fn find_piece_end(path: &[u8], from: usize) -> (end: usize)
    requires
        from <= path@.len(),
    ensures
        end == piece_end(path@, from as int),
        from <= end <= path@.len(),
{
    let mut end: usize = from;
    while end < path.len() && path[end] != SEPARATOR
        invariant
            from <= end <= path@.len(),
            piece_end(path@, from as int) == piece_end(path@, end as int),
        decreases path@.len() - end,
    {
        end += 1;
    }
    end
}

/// Where the components of a path lie.
fn find_components(path: &[u8]) -> (res: Vec<(usize, usize)>)
    ensures
        as_spans(res@) == component_spans(path@),
        forall|i: int| 0 <= i < res@.len() ==> (#[trigger] res@[i]).0 <= res@[i].1 <= path@.len(),
{
    let mut res: Vec<(usize, usize)> = Vec::new();
    let mut from: usize = 0;
    let mut end: usize = find_piece_end(path, 0);
    let lead: bool = path.len() > 0 && (path[0] == SEPARATOR || end == 1 && path[0] == DOT);
    proof {
        let first = path@.subrange(0, end as int);
        if end == 1 {
            assert(first.len() == 1 && first[0] == path@[0]);
            assert(path@[0] == DOT ==> first =~= seq![DOT]);
        }
        assert(lead == has_lead(path@)) by {
            if first == seq![DOT] {
                assert(first.len() == 1);
            }
        }
    }
    if lead {
        res.push((0, 1));
    }
    assert(component_spans(path@) =~= as_spans(res@) + name_spans(path@, 0));
    loop
        invariant
            from <= end <= path@.len(),
            end == piece_end(path@, from as int),
            component_spans(path@) == as_spans(res@) + name_spans(path@, from as int),
            forall|i: int|
                0 <= i < res@.len() ==> (#[trigger] res@[i]).0 <= res@[i].1 <= path@.len(),
        decreases path@.len() - from,
    {
        let ghost before = as_spans(res@);
        let ghost span = (from as int, end as int);
        let ghost first = if is_name(path@.subrange(from as int, end as int)) {
            seq![span]
        } else {
            Seq::empty()
        };
        if counts(path, from, end) {
            res.push((from, end));
        }
        assert(as_spans(res@) =~= before + first);
        if end >= path.len() {
            assert(component_spans(path@) =~= as_spans(res@));
            return res;
        }
        from = end + 1;
        end = find_piece_end(path, from);
        assert(component_spans(path@) =~= as_spans(res@) + name_spans(path@, from as int));
    }
}

/// Whether `path` is `base` or lies below it. Only whole components count: `/tmp` holds `/tmp/a`,
/// but not `/tmpa`.
pub fn lies_within(path: &[u8], base: &[u8]) -> (res: bool)
    ensures
        res == is_within(path@, base@),
        res <==> {
            &&& components(base@).len() <= components(path@).len()
            &&& forall|i: int|
                0 <= i < components(base@).len() ==> #[trigger] components(path@)[i] == components(
                    base@,
                )[i]
        },
{
    proof {
        law_within_agrees_at_every_component(path@, base@);
    }
    let of_path = find_components(path);
    let of_base = find_components(base);
    assert(components(path@).len() == of_path@.len());
    assert(components(base@).len() == of_base@.len());
    if of_base.len() > of_path.len() {
        return false;
    }
    let mut i: usize = 0;
    while i < of_base.len()
        invariant
            i <= of_base@.len() <= of_path@.len(),
            as_spans(of_path@) == component_spans(path@),
            as_spans(of_base@) == component_spans(base@),
            components(path@).len() == of_path@.len(),
            components(base@).len() == of_base@.len(),
            forall|j: int|
                0 <= j < of_path@.len() ==> (#[trigger] of_path@[j]).0 <= of_path@[j].1
                    <= path@.len(),
            forall|j: int|
                0 <= j < of_base@.len() ==> (#[trigger] of_base@[j]).0 <= of_base@[j].1
                    <= base@.len(),
            forall|j: int|
                0 <= j < i ==> #[trigger] components(base@)[j] == components(path@)[j],
        decreases of_base@.len() - i,
    {
        let (a, b) = of_path[i];
        let (c, d) = of_base[i];
        assert(as_spans(of_path@)[i as int] == (a as int, b as int));
        assert(as_spans(of_base@)[i as int] == (c as int, d as int));
        let same = same_bytes(
            vstd::slice::slice_subrange(path, a, b),
            vstd::slice::slice_subrange(base, c, d),
        );
        if !same {
            assert(components(base@)[i as int] != components(path@)[i as int]);
            assert(components(path@).subrange(0, components(base@).len() as int)[i as int]
                == components(path@)[i as int]);
            return false;
        }
        i += 1;
    }
    assert(components(base@) =~= components(path@).subrange(0, components(base@).len() as int));
    true
}

/// Whether two rows of bytes are the same.
fn same_bytes(a: &[u8], b: &[u8]) -> (res: bool)
    ensures
        res == (a@ == b@),
{
    if a.len() != b.len() {
        return false;
    }
    let mut i: usize = 0;
    while i < a.len()
        invariant
            i <= a@.len(),
            a@.len() == b@.len(),
            forall|j: int| 0 <= j < i ==> a@[j] == b@[j],
        decreases a@.len() - i,
    {
        if a[i] != b[i] {
            return false;
        }
        i += 1;
    }
    assert(a@ =~= b@);
    true
}

/// The path without its last component, where it has a parent.
pub fn parent(path: &[u8]) -> (res: Option<&[u8]>)
    ensures
        match res {
            Some(p) => parent_of(path@) == Some(p@),
            None => parent_of(path@) is None,
        },
{
    let spans = find_components(path);
    let n: usize = spans.len();
    assert(component_spans(path@).len() == n);
    if n == 0 || n == 1 && path[0] == SEPARATOR {
        None
    } else if n == 1 {
        let res = vstd::slice::slice_subrange(path, 0, 0);
        assert(res@ =~= Seq::empty());
        Some(res)
    } else {
        let (from, end) = spans[n - 2];
        assert(as_spans(spans@)[n - 2] == (from as int, end as int));
        Some(vstd::slice::slice_subrange(path, 0, end))
    }
}

/// A path lies within a base if and only if it has at least as many components and agrees with the
/// base at every one of the base's.
pub proof fn law_within_agrees_at_every_component(path: Seq<u8>, base: Seq<u8>)
    ensures
        is_within(path, base) <==> {
            &&& components(path).len() >= components(base).len()
            &&& forall|i: int|
                0 <= i < components(base).len() ==> #[trigger] components(path)[i] == components(
                    base,
                )[i]
        },
{
    let n = components(base).len() as int;
    if components(path).len() >= n {
        assert forall|i: int| 0 <= i < n implies components(path).subrange(0, n)[i] == components(
            path,
        )[i] by {}
        if forall|i: int|
            0 <= i < n ==> #[trigger] components(path)[i] == components(base)[i] {
            assert(components(base) =~= components(path).subrange(0, n));
        }
    }
}

/// Two paths that lie within each other have the same components, and a path within a base that has
/// as many components as the base has the base's.
pub proof fn law_within_each_other_is_the_same(path: Seq<u8>, base: Seq<u8>)
    requires
        is_within(path, base),
        is_within(base, path) || components(path).len() <= components(base).len(),
    ensures
        components(path) == components(base),
{
    law_within_agrees_at_every_component(path, base);
    law_within_agrees_at_every_component(base, path);
    assert(components(path) =~= components(base));
}

/// Of a path with one piece more, the names are those of the path and that piece, if it is one.
proof fn lemma_name_spans_of_child(path: Seq<u8>, piece: Seq<u8>, from: int)
    requires
        0 <= from <= path.len(),
        !piece.contains(SEPARATOR),
    ensures
        ({
            let child = path + seq![SEPARATOR] + piece;
            let begin = path.len() as int + 1;
            name_spans(child, from) == name_spans(path, from) + if is_name(piece) {
                seq![(begin, begin + piece.len())]
            } else {
                Seq::empty()
            }
        }),
    decreases path.len() - from,
{
    let child = path + seq![SEPARATOR] + piece;
    let begin = path.len() as int + 1;
    let end = piece_end(path, from);
    lemma_piece_end(path, from);
    lemma_piece_end_is(child, from, end);
    assert(child.subrange(from, end) =~= path.subrange(from, end));
    let last = if is_name(piece) {
        seq![(begin, begin + piece.len())]
    } else {
        Seq::empty()
    };
    if end < path.len() {
        lemma_name_spans_of_child(path, piece, end + 1);
        let first = if is_name(path.subrange(from, end)) {
            seq![(from, end)]
        } else {
            Seq::empty()
        };
        assert(first + (name_spans(path, end + 1) + last) =~= (first + name_spans(path, end + 1))
            + last);
    } else {
        assert forall|i: int| begin <= i < child.len() implies child[i] != SEPARATOR by {
            assert(piece.contains(piece[i - begin]));
        }
        lemma_piece_end_is(child, begin, child.len() as int);
        assert(child.subrange(begin, child.len() as int) =~= piece);
        assert(name_spans(child, begin) =~= last);
    }
}

/// A path without a separator has one component, itself, unless it is empty. A separator and a piece
/// behind a path add the piece to its components, unless the piece is empty or `.`. The separator in
/// front of a piece alone is a component of its own.
pub proof fn law_components_piece_by_piece(path: Seq<u8>, piece: Seq<u8>)
    requires
        !piece.contains(0x2f),
    ensures
        components(piece) == if piece.len() > 0 {
            seq![piece]
        } else {
            Seq::empty()
        },
        components(path + seq![0x2f] + piece) == (if path.len() > 0 {
            components(path)
        } else {
            seq![seq![0x2fu8]]
        }) + if piece.len() > 0 && piece != seq![0x2eu8] {
            seq![piece]
        } else {
            Seq::empty()
        },
{
    let child = path + seq![SEPARATOR] + piece;
    assert(child =~= path + seq![0x2f] + piece);
    let begin = path.len() as int + 1;
    lemma_name_spans_of_child(path, piece, 0);
    lemma_name_spans(path, 0);
    lemma_piece_end(path, 0);
    let end = piece_end(path, 0);
    lemma_piece_end_is(child, 0, end);
    assert(child.subrange(0, end) =~= path.subrange(0, end));
    let last = if is_name(piece) {
        seq![(begin, begin + piece.len())]
    } else {
        Seq::empty()
    };
    let added = if is_name(piece) {
        seq![piece]
    } else {
        Seq::empty()
    };
    assert(child.subrange(begin, begin + piece.len()) =~= piece);
    if path.len() > 0 {
        assert(has_lead(child) == has_lead(path));
        let spans = component_spans(path);
        assert(component_spans(child) =~= spans + last);
        assert forall|i: int| 0 <= i < spans.len() implies components(child)[i] == components(
            path,
        )[i] by {
            let s = spans[i];
            if has_lead(path) && i > 0 {
                assert(s == name_spans(path, 0)[i - 1]);
            }
            assert(component_spans(child)[i] == s);
            assert(child.subrange(s.0, s.1) =~= path.subrange(s.0, s.1));
        }
        assert(components(child) =~= components(path) + added);
    } else {
        assert(name_spans(path, 0) =~= Seq::empty());
        assert(component_spans(child) =~= seq![(0int, 1int)] + last);
        assert(child.subrange(0, 1) =~= seq![SEPARATOR]);
        assert(components(child) =~= seq![seq![0x2fu8]] + added);
    }
    let n = piece.len() as int;
    assert forall|i: int| 0 <= i < n implies piece[i] != SEPARATOR by {
        assert(piece.contains(piece[i]));
    }
    lemma_piece_end_is(piece, 0, n);
    assert(piece.subrange(0, n) =~= piece);
    if n > 0 {
        assert(component_spans(piece) =~= seq![(0int, n)]);
        assert(components(piece) =~= seq![piece]);
    } else {
        assert(component_spans(piece) =~= Seq::empty());
        assert(components(piece) =~= Seq::empty());
    }
}

/// What lies directly below a directory lies within it, and of two names there, one lies within the
/// other only if they are the same: `/tmp/a` holds neither `/tmp/ab` nor `/tmp/b`.
pub proof fn law_siblings_are_apart(path: Seq<u8>, name: Seq<u8>, other: Seq<u8>)
    requires
        !name.contains(0x2f),
        !other.contains(0x2f),
        is_name(name),
        is_name(other),
    ensures
        path.len() > 0 ==> is_within(path + seq![0x2f] + name, path),
        path.len() > 0 ==> !is_within(path, path + seq![0x2f] + name),
        is_within(path + seq![0x2f] + name, path + seq![0x2f] + other) <==> name == other,
{
    let a = path + seq![0x2fu8] + name;
    let b = path + seq![0x2fu8] + other;
    law_components_piece_by_piece(path, name);
    law_components_piece_by_piece(path, other);
    law_within_agrees_at_every_component(a, path);
    law_within_agrees_at_every_component(path, a);
    law_within_agrees_at_every_component(a, b);
    let n = components(a).len() - 1;
    assert(components(a)[n] == name);
    assert(components(b)[n] == other);
}

/// A path has no parent if and only if it has no component, or none but the root. Else its parent is
/// what the path begins with, cut right behind the component before the last, or nothing where there
/// is none.
pub proof fn law_parent_is_cut_behind_a_component(path: Seq<u8>)
    ensures
        parent_of(path) is None <==> components(path).len() == 0 || components(path) == seq![
            seq![0x2fu8],
        ],
        parent_of(path) matches Some(parent) ==> {
            let n = components(path).len() as int;
            &&& parent.len() <= path.len()
            &&& parent == path.take(parent.len() as int)
            &&& n == 1 ==> parent == Seq::<u8>::empty()
            &&& n == 2 ==> parent == components(path)[0]
            &&& n >= 2 ==> components(path)[n - 2].len() <= parent.len() && parent.skip(
                parent.len() - components(path)[n - 2].len(),
            ) == components(path)[n - 2]
        },
{
    let spans = component_spans(path);
    let names = name_spans(path, 0);
    let n = spans.len() as int;
    lemma_name_spans(path, 0);
    lemma_piece_end(path, 0);
    let end = piece_end(path, 0);
    if n == 1 {
        let s = spans[0];
        if path[0] == SEPARATOR {
            assert(path.subrange(0, 1) =~= seq![SEPARATOR]);
            assert(components(path)[0] == path.subrange(s.0, s.1));
            assert(components(path) =~= seq![seq![0x2fu8]]);
        } else if components(path) == seq![seq![0x2fu8]] {
            assert(components(path)[0] == path.subrange(s.0, s.1));
            assert(path.subrange(s.0, s.1)[0] == SEPARATOR);
            lemma_names_hold_no_separator(path, 0);
            if !has_lead(path) {
                assert(names[0] == s);
                assert(path[s.0] != SEPARATOR);
            }
            assert(false);
        }
    }
    if let Some(parent) = parent_of(path) {
        if n >= 2 {
            let s = spans[n - 2];
            if !has_lead(path) {
                assert(s == names[n - 2]);
                if n == 2 {
                    lemma_first_name(path);
                }
            } else if n > 2 {
                assert(s == names[n - 3]);
            }
            assert(components(path)[n - 2] == path.subrange(s.0, s.1));
            assert(parent.skip(s.0) =~= path.subrange(s.0, s.1));
            if n == 2 {
                assert(parent =~= path.subrange(0, s.1));
            }
        } else {
            assert(path.take(0) =~= parent);
        }
    }
}

/// No name holds a separator.
proof fn lemma_names_hold_no_separator(path: Seq<u8>, from: int)
    requires
        0 <= from <= path.len(),
    ensures
        forall|i: int, k: int|
            0 <= i < name_spans(path, from).len() && (#[trigger] name_spans(path, from)[i]).0 <= k
                < name_spans(path, from)[i].1 ==> #[trigger] path[k] != SEPARATOR,
    decreases path.len() - from,
{
    lemma_piece_end(path, from);
    let end = piece_end(path, from);
    if end < path.len() {
        lemma_names_hold_no_separator(path, end + 1);
        let rest = name_spans(path, end + 1);
        if is_name(path.subrange(from, end)) {
            assert(name_spans(path, from) =~= seq![(from, end)] + rest);
        } else {
            assert(name_spans(path, from) =~= rest);
        }
    }
}

/// Where nothing else stands in front, the first name begins with the path.
proof fn lemma_first_name(path: Seq<u8>)
    requires
        !has_lead(path),
        name_spans(path, 0).len() > 0,
    ensures
        name_spans(path, 0)[0].0 == 0,
{
    lemma_piece_end(path, 0);
    let end = piece_end(path, 0);
    if path.len() > 0 {
        assert(end > 0);
        assert(is_name(path.subrange(0, end)));
    }
}

} // verus!
