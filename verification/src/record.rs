//! Fields and the ordered mapping that a record is made of.
use vstd::prelude::*;
use crate::text::to_text;

verus! {

/// One entry of a record: a key and its textual value.
#[derive(Debug)]
pub struct Field {
    pub key: String,
    pub value: String,
}

impl View for Field {
    type V = (Seq<char>, Seq<char>);

    open spec fn view(&self) -> (Seq<char>, Seq<char>) {
        (self.key@, self.value@)
    }
}

/// The key-value pairs that a vector of fields holds.
pub open spec fn field_views(v: Seq<Field>) -> Seq<(Seq<char>, Seq<char>)> {
    Seq::new(v.len(), |i: int| v[i]@)
}

/// The key under which leftover segments are kept.
pub open spec fn unparsed_key() -> Seq<char> {
    "_unparsed"@
}

/// The index of the first entry of `m` with key `k`, or the length of `m`.
pub open spec fn key_index(m: Seq<(Seq<char>, Seq<char>)>, k: Seq<char>) -> int
    decreases m.len(),
{
    if m.len() == 0 {
        0
    } else if m[0].0 == k {
        0
    } else {
        1 + key_index(m.drop_first(), k)
    }
}

/// `m` with `k` bound to `v`: a key that `m` holds keeps its place and gets
/// the new value, a new key goes to the end.
pub open spec fn upsert(m: Seq<(Seq<char>, Seq<char>)>, k: Seq<char>, v: Seq<char>) -> Seq<
    (Seq<char>, Seq<char>),
> {
    let i = key_index(m, k);
    if 0 <= i < m.len() {
        m.update(i, (k, v))
    } else {
        m.push((k, v))
    }
}

/// The ordered mapping that comes of binding the pairs of `pairs` one after
/// another, starting from `m`.
pub open spec fn upsert_all(m: Seq<(Seq<char>, Seq<char>)>, pairs: Seq<(Seq<char>, Seq<char>)>) -> Seq<
    (Seq<char>, Seq<char>),
>
    decreases pairs.len(),
{
    if pairs.len() == 0 {
        m
    } else {
        upsert_all(upsert(m, pairs[0].0, pairs[0].1), pairs.drop_first())
    }
}

/// The texts of `parts` with one space between neighbours.
pub open spec fn joined(parts: Seq<Seq<char>>) -> Seq<char>
    decreases parts.len(),
{
    if parts.len() == 0 {
        Seq::empty()
    } else if parts.len() == 1 {
        parts[0]
    } else {
        joined(parts.drop_last()) + seq![' '] + parts.last()
    }
}

/// The field mapping of a line: the extracted pairs bound in order, and
/// behind them the leftover segments under their reserved key, if any.
pub open spec fn assembled(pairs: Seq<(Seq<char>, Seq<char>)>, leftover: Seq<Seq<char>>) -> Seq<
    (Seq<char>, Seq<char>),
> {
    let m = upsert_all(Seq::empty(), pairs);
    if leftover.len() > 0 {
        upsert(m, unparsed_key(), joined(leftover))
    } else {
        m
    }
}

/// No key occurs twice in `m`.
pub open spec fn keys_distinct(m: Seq<(Seq<char>, Seq<char>)>) -> bool {
    forall|i: int, j: int| 0 <= i < j < m.len() ==> m[i].0 != m[j].0
}

/// The first entry with key `k` is where `key_index` says, and no entry
/// before it has that key.
pub proof fn lemma_key_index(m: Seq<(Seq<char>, Seq<char>)>, k: Seq<char>)
    ensures
        0 <= key_index(m, k) <= m.len(),
        key_index(m, k) < m.len() ==> m[key_index(m, k)].0 == k,
        forall|i: int| 0 <= i < key_index(m, k) ==> (#[trigger] m[i]).0 != k,
    decreases m.len(),
{
    if m.len() > 0 && m[0].0 != k {
        let rest = m.drop_first();
        lemma_key_index(rest, k);
        assert forall|i: int| 0 <= i < key_index(m, k) implies (#[trigger] m[i]).0 != k by {
            if i > 0 {
                assert(m[i] == rest[i - 1]);
            }
        }
    }
}

/// Binding a key keeps the keys of a mapping distinct.
pub proof fn lemma_upsert_distinct(m: Seq<(Seq<char>, Seq<char>)>, k: Seq<char>, v: Seq<char>)
    requires
        keys_distinct(m),
    ensures
        keys_distinct(upsert(m, k, v)),
        key_index(upsert(m, k, v), k) < upsert(m, k, v).len(),
        upsert(m, k, v)[key_index(upsert(m, k, v), k)] == (k, v),
{
    lemma_key_index(m, k);
    let r = upsert(m, k, v);
    let i = key_index(m, k);
    assert(r[i] == (k, v));
    assert forall|a: int, b: int| 0 <= a < b < r.len() implies r[a].0 != r[b].0 by {
        if i < m.len() {
            assert(r[a].0 == m[a].0);
            assert(r[b].0 == m[b].0);
        } else {
            if b == i {
                assert(r[a] == m[a]);
            }
        }
    }
    lemma_key_index(r, k);
    let j = key_index(r, k);
    if j != i {
        if j < i {
            assert(r[j].0 == k);
            assert(m[j].0 == k);
        } else {
            assert(r[i].0 == k);
        }
    }
}

/// A key that a mapping does not hold has no index in it.
pub proof fn lemma_key_absent(m: Seq<(Seq<char>, Seq<char>)>, k: Seq<char>)
    requires
        forall|i: int| 0 <= i < m.len() ==> (#[trigger] m[i]).0 != k,
    ensures
        key_index(m, k) == m.len(),
    decreases m.len(),
{
    if m.len() > 0 {
        let rest = m.drop_first();
        assert forall|i: int| 0 <= i < rest.len() implies (#[trigger] rest[i]).0 != k by {
            assert(rest[i] == m[i + 1]);
        }
        assert(m[0].0 != k);
        lemma_key_absent(rest, k);
    }
}

/// Where no key occurs twice among the entries and the pairs, binding the
/// pairs appends them: nothing is replaced.
pub proof fn lemma_upsert_all_appends(
    m: Seq<(Seq<char>, Seq<char>)>,
    pairs: Seq<(Seq<char>, Seq<char>)>,
)
    requires
        keys_distinct(m + pairs),
    ensures
        upsert_all(m, pairs) == m + pairs,
    decreases pairs.len(),
{
    let all = m + pairs;
    if pairs.len() == 0 {
        assert(all =~= m);
    } else {
        let k = pairs[0].0;
        assert(all[m.len() as int] == pairs[0]);
        assert forall|i: int| 0 <= i < m.len() implies (#[trigger] m[i]).0 != k by {
            assert(all[i] == m[i]);
        }
        lemma_key_absent(m, k);
        let next = upsert(m, k, pairs[0].1);
        assert(pairs[0] == (k, pairs[0].1));
        assert(next =~= m.push(pairs[0]));
        assert(next + pairs.drop_first() =~= all);
        lemma_upsert_all_appends(next, pairs.drop_first());
    }
}

/// Where the extracted pairs hold no key twice and none is the reserved
/// key, the assembled mapping is these pairs as they stand, followed by
/// the leftovers under the reserved key, if there are any.
pub proof fn lemma_assembled_keeps_all(
    pairs: Seq<(Seq<char>, Seq<char>)>,
    leftover: Seq<Seq<char>>,
)
    requires
        keys_distinct(pairs),
        forall|i: int| 0 <= i < pairs.len() ==> (#[trigger] pairs[i]).0 != unparsed_key(),
    ensures
        assembled(pairs, leftover) == if leftover.len() > 0 {
            pairs.push((unparsed_key(), joined(leftover)))
        } else {
            pairs
        },
{
    assert(Seq::<(Seq<char>, Seq<char>)>::empty() + pairs =~= pairs);
    lemma_upsert_all_appends(Seq::empty(), pairs);
    lemma_key_absent(pairs, unparsed_key());
}

/// Binding pairs one after another keeps the keys of a mapping distinct.
pub proof fn lemma_upsert_all_distinct(
    m: Seq<(Seq<char>, Seq<char>)>,
    pairs: Seq<(Seq<char>, Seq<char>)>,
)
    requires
        keys_distinct(m),
    ensures
        keys_distinct(upsert_all(m, pairs)),
    decreases pairs.len(),
{
    if pairs.len() > 0 {
        lemma_upsert_distinct(m, pairs[0].0, pairs[0].1);
        lemma_upsert_all_distinct(upsert(m, pairs[0].0, pairs[0].1), pairs.drop_first());
    }
}

/// Whatever holds of every entry of a mapping and of every pair bound to
/// it holds of every entry of the outcome.
pub proof fn lemma_upsert_all_keeps(
    m: Seq<(Seq<char>, Seq<char>)>,
    pairs: Seq<(Seq<char>, Seq<char>)>,
    holds: spec_fn((Seq<char>, Seq<char>)) -> bool,
)
    requires
        forall|i: int| 0 <= i < m.len() ==> holds(#[trigger] m[i]),
        forall|i: int| 0 <= i < pairs.len() ==> holds(#[trigger] pairs[i]),
    ensures
        forall|i: int|
            0 <= i < upsert_all(m, pairs).len() ==> holds(#[trigger] upsert_all(m, pairs)[i]),
    decreases pairs.len(),
{
    if pairs.len() > 0 {
        let next = upsert(m, pairs[0].0, pairs[0].1);
        let rest = pairs.drop_first();
        lemma_key_index(m, pairs[0].0);
        assert(pairs[0] == (pairs[0].0, pairs[0].1));
        assert(holds(pairs[0]));
        assert forall|i: int| 0 <= i < next.len() implies holds(#[trigger] next[i]) by {
            if i < m.len() && i != key_index(m, pairs[0].0) {
                assert(next[i] == m[i]);
            }
        }
        assert forall|i: int| 0 <= i < rest.len() implies holds(#[trigger] rest[i]) by {
            assert(rest[i] == pairs[i + 1]);
        }
        lemma_upsert_all_keeps(next, rest, holds);
        assert(upsert_all(m, pairs) == upsert_all(next, rest));
    } else {
        assert(upsert_all(m, pairs) == m);
    }
}

/// An assembled field mapping holds no key twice.
pub proof fn lemma_assembled_distinct(
    pairs: Seq<(Seq<char>, Seq<char>)>,
    leftover: Seq<Seq<char>>,
)
    ensures
        keys_distinct(assembled(pairs, leftover)),
{
    let m = upsert_all(Seq::empty(), pairs);
    lemma_upsert_all_distinct(Seq::empty(), pairs);
    lemma_upsert_distinct(m, unparsed_key(), joined(leftover));
}

/// Whatever holds of every extracted pair, and of the leftovers under
/// their reserved key, holds of every entry of the assembled mapping.
pub proof fn lemma_assembled_keeps(
    pairs: Seq<(Seq<char>, Seq<char>)>,
    leftover: Seq<Seq<char>>,
    holds: spec_fn((Seq<char>, Seq<char>)) -> bool,
)
    requires
        forall|i: int| 0 <= i < pairs.len() ==> holds(#[trigger] pairs[i]),
        leftover.len() > 0 ==> holds((unparsed_key(), joined(leftover))),
    ensures
        forall|i: int|
            0 <= i < assembled(pairs, leftover).len() ==> holds(
                #[trigger] assembled(pairs, leftover)[i],
            ),
{
    let m = upsert_all(Seq::empty(), pairs);
    lemma_upsert_all_keeps(Seq::empty(), pairs, holds);
    if leftover.len() > 0 {
        let last = seq![(unparsed_key(), joined(leftover))];
        assert(upsert_all(m, last) == upsert(m, unparsed_key(), joined(leftover))) by {
            assert(last.drop_first() =~= Seq::empty());
            assert(upsert_all(upsert(m, last[0].0, last[0].1), last.drop_first()) == upsert(
                m,
                last[0].0,
                last[0].1,
            ));
        }
        lemma_upsert_all_keeps(m, last, holds);
    }
}

/// Binds `key` to `value` in `fields`; see `upsert`.
pub fn bind(fields: &mut Vec<Field>, key: String, value: String)
    ensures
        field_views(final(fields)@) == upsert(field_views(old(fields)@), key@, value@),
{
    let ghost m = field_views(fields@);
    let n: usize = fields.len();
    let mut i: usize = 0;
    assert(m.subrange(0, n as int) =~= m);
    while i < n && !(fields[i].key == key)
        invariant
            i <= n == fields.len(),
            m == field_views(fields@),
            key_index(m, key@) == i + key_index(m.subrange(i as int, n as int), key@),
        decreases n - i,
    {
        proof {
            let tail = m.subrange(i as int, n as int);
            assert(tail.drop_first() =~= m.subrange(i + 1, n as int));
            assert(tail[0] == fields@[i as int]@);
        }
        i += 1;
    }
    proof {
        let tail = m.subrange(i as int, n as int);
        if i < n {
            assert(tail[0] == fields@[i as int]@);
        }
        assert(key_index(tail, key@) == 0);
    }
    let ghost k = key@;
    let ghost v = value@;
    if i < n {
        fields.set(i, Field { key, value });
        assert(field_views(fields@) =~= m.update(i as int, (k, v)));
    } else {
        fields.push(Field { key, value });
        assert(field_views(fields@) =~= m.push((k, v)));
    }
}

/// Puts the texts of `parts` in a row, one space between neighbours.
pub fn join(parts: &Vec<Vec<char>>) -> (r: Vec<char>)
    ensures
        r@ == joined(crate::segment::views(parts@)),
{
    let ghost all = crate::segment::views(parts@);
    let mut out: Vec<char> = Vec::new();
    let mut i: usize = 0;
    assert(all.take(0) =~= Seq::<Seq<char>>::empty());
    while i < parts.len()
        invariant
            i <= parts.len(),
            all == crate::segment::views(parts@),
            out@ == joined(all.take(i as int)),
        decreases parts.len() - i,
    {
        let ghost before = out@;
        if i > 0 {
            out.push(' ');
        }
        let part = &parts[i];
        let mut j: usize = 0;
        let ghost head = out@;
        while j < part.len()
            invariant
                j <= part.len(),
                out@ == head + part@.take(j as int),
            decreases part.len() - j,
        {
            out.push(part[j]);
            j += 1;
            assert(out@ =~= head + part@.take(j as int));
        }
        proof {
            assert(part@.take(j as int) =~= part@);
            let now = all.take(i + 1);
            assert(now.drop_last() =~= all.take(i as int));
            assert(now.last() == part@);
            if i > 0 {
                assert(out@ =~= before + seq![' '] + part@);
            } else {
                assert(out@ =~= part@);
            }
        }
        i += 1;
    }
    assert(all.take(i as int) =~= all);
    out
}

/// Builds the field mapping of a line from its extracted pairs and its
/// leftover segments; see `assembled`.
pub fn assemble(pairs: Vec<Field>, leftover: &Vec<Vec<char>>) -> (r: Vec<Field>)
    ensures
        field_views(r@) == assembled(field_views(pairs@), crate::segment::views(leftover@)),
        keys_distinct(field_views(r@)),
{
    proof {
        lemma_assembled_distinct(field_views(pairs@), crate::segment::views(leftover@));
    }
    let ghost all = field_views(pairs@);
    let mut out: Vec<Field> = Vec::new();
    let mut pairs = pairs;
    let n: usize = pairs.len();
    let mut i: usize = 0;
    assert(field_views(out@) =~= Seq::empty());
    assert(all.skip(0) =~= all);
    while i < n
        invariant
            i <= n == pairs.len(),
            all == field_views(pairs@),
            upsert_all(Seq::empty(), all) == upsert_all(field_views(out@), all.skip(i as int)),
        decreases n - i,
    {
        let key = pairs[i].key.clone();
        let value = pairs[i].value.clone();
        proof {
            assert(all.skip(i as int).drop_first() =~= all.skip(i + 1));
            assert(all.skip(i as int)[0] == (key@, value@));
        }
        bind(&mut out, key, value);
        i += 1;
    }
    assert(all.skip(n as int) =~= Seq::empty());
    if leftover.len() > 0 {
        let text = join(leftover);
        bind(&mut out, "_unparsed".to_owned(), to_text(&text));
    }
    out
}

} // verus!
