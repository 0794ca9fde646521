//! Profile overrides: a configuration document seen as a tree of named
//! tables, and the deep merge that lays an override document over a base.
use vstd::prelude::*;

verus! {

/// A configuration document: either a table of named entries or a leaf.
/// A leaf carries the number by which its owner finds the leaf's value again.
pub enum ConfigTree {
    Leaf(u64),
    Table(Vec<(String, ConfigTree)>),
}

/// The mathematical model of a [`ConfigTree`].
pub enum TreeModel {
    Leaf(u64),
    Table(Seq<(Seq<char>, TreeModel)>),
}

pub open spec fn tree_model(t: ConfigTree) -> TreeModel
    decreases t, 0int,
{
    match t {
        ConfigTree::Leaf(v) => TreeModel::Leaf(v),
        ConfigTree::Table(v) => TreeModel::Table(entries_model(v@, v@.len() as int)),
    }
}

/// The models of the first `n` entries of `s`.
pub open spec fn entries_model(s: Seq<(String, ConfigTree)>, n: int) -> Seq<(Seq<char>, TreeModel)>
    decreases s, n,
{
    if n <= 0 || n > s.len() {
        Seq::empty()
    } else {
        entries_model(s, n - 1).push((s[n - 1].0@, tree_model(s[n - 1].1)))
    }
}

/// The model of a whole table.
pub open spec fn table_model(s: Seq<(String, ConfigTree)>) -> Seq<(Seq<char>, TreeModel)> {
    entries_model(s, s.len() as int)
}

/// The first index at or after `from` whose entry is named `k`.
pub open spec fn first_key(es: Seq<(Seq<char>, TreeModel)>, k: Seq<char>, from: int) -> Option<int>
    decreases es.len() - from,
{
    if from < 0 || from >= es.len() {
        None
    } else if es[from].0 == k {
        Some(from)
    } else {
        first_key(es, k, from + 1)
    }
}

/// `o` laid over `b`: where both are tables, each entry of `o` is merged into
/// the entry of `b` with the same name, or added after `b`'s entries when `b`
/// has none; otherwise `o` replaces `b`.
pub open spec fn merged(b: TreeModel, o: TreeModel) -> TreeModel
    decreases o, 0int,
{
    match o {
        TreeModel::Table(oe) => match b {
            TreeModel::Table(be) => TreeModel::Table(merged_entries(be, oe, oe.len() as int)),
            TreeModel::Leaf(_) => o,
        },
        TreeModel::Leaf(_) => o,
    }
}

/// The entries `be` after the first `n` entries of `oe` were laid over them in turn.
pub open spec fn merged_entries(
    be: Seq<(Seq<char>, TreeModel)>,
    oe: Seq<(Seq<char>, TreeModel)>,
    n: int,
) -> Seq<(Seq<char>, TreeModel)>
    decreases oe, n,
{
    if n <= 0 || n > oe.len() {
        be
    } else {
        let acc = merged_entries(be, oe, n - 1);
        let k = oe[n - 1].0;
        match first_key(acc, k, 0) {
            Some(i) => {
                proof {
                    assert(decreases_to!(oe => oe[n - 1]));
                }
                acc.update(i, (k, merged(acc[i].1, oe[n - 1].1)))
            },
            None => acc.push((k, oe[n - 1].1)),
        }
    }
}

proof fn lemma_first_key(es: Seq<(Seq<char>, TreeModel)>, k: Seq<char>, from: int)
    requires
        0 <= from,
    ensures
        first_key(es, k, from) matches Some(i) ==> from <= i < es.len() && es[i].0 == k && forall|q: int|
            from <= q < i ==> es[q].0 != k,
        first_key(es, k, from) is None ==> forall|q: int| from <= q < es.len() ==> es[q].0 != k,
    decreases es.len() - from,
{
    if from < es.len() && es[from].0 != k {
        lemma_first_key(es, k, from + 1);
    }
}

/// The value named `k` in the entries `es`, if any (the first such entry).
pub open spec fn lookup(es: Seq<(Seq<char>, TreeModel)>, k: Seq<char>) -> Option<TreeModel> {
    match first_key(es, k, 0) {
        Some(i) => Some(es[i].1),
        None => None,
    }
}

/// What a setting becomes when the value `ov` from an override is laid over
/// the value `bv` from the base (`None` where a document lacks the setting).
pub open spec fn laid_over(bv: Option<TreeModel>, ov: Option<TreeModel>) -> Option<TreeModel> {
    match ov {
        None => bv,
        Some(o) => match bv {
            Some(b) => Some(merged(b, o)),
            None => Some(o),
        },
    }
}

/// No two entries of `es` share a name, as in every table of a parsed document.
pub open spec fn distinct_keys(es: Seq<(Seq<char>, TreeModel)>) -> bool {
    forall|i: int, j: int| 0 <= i < j < es.len() ==> es[i].0 != es[j].0
}

proof fn lemma_first_key_at(es: Seq<(Seq<char>, TreeModel)>, k: Seq<char>, from: int, i: int)
    requires
        0 <= from <= i < es.len(),
        es[i].0 == k,
        forall|q: int| from <= q < i ==> es[q].0 != k,
    ensures
        first_key(es, k, from) == Some(i),
    decreases i - from,
{
    if from < i {
        lemma_first_key_at(es, k, from + 1, i);
    }
}

proof fn lemma_first_key_absent(es: Seq<(Seq<char>, TreeModel)>, k: Seq<char>, from: int)
    requires
        0 <= from,
        forall|q: int| from <= q < es.len() ==> es[q].0 != k,
    ensures
        first_key(es, k, from) is None,
    decreases es.len() - from,
{
    if from < es.len() {
        lemma_first_key_absent(es, k, from + 1);
    }
}

/// Two entry lists with the same names in the same places find a name at the same place.
proof fn lemma_first_key_same_names(
    a: Seq<(Seq<char>, TreeModel)>,
    b: Seq<(Seq<char>, TreeModel)>,
    k: Seq<char>,
)
    requires
        a.len() == b.len(),
        forall|q: int| 0 <= q < a.len() ==> a[q].0 == b[q].0,
    ensures
        first_key(a, k, 0) == first_key(b, k, 0),
{
    lemma_first_key(a, k, 0);
    match first_key(a, k, 0) {
        Some(i) => lemma_first_key_at(b, k, 0, i),
        None => lemma_first_key_absent(b, k, 0),
    }
}

/// One step of the merge keeps the lookup law for every name.
proof fn lemma_merge_step(
    be: Seq<(Seq<char>, TreeModel)>,
    oe: Seq<(Seq<char>, TreeModel)>,
    n: int,
    k: Seq<char>,
)
    requires
        0 <= n < oe.len(),
        distinct_keys(oe),
        forall|k2: Seq<char>|
            lookup(merged_entries(be, oe, n), k2) == laid_over(
                lookup(be, k2),
                #[trigger] lookup(oe.take(n), k2),
            ),
    ensures
        lookup(merged_entries(be, oe, n + 1), k) == laid_over(lookup(be, k), lookup(oe.take(n + 1), k)),
{
    let acc = merged_entries(be, oe, n);
    let kn = oe[n].0;
    let next = merged_entries(be, oe, n + 1);
    let pre = oe.take(n);
    let pre1 = oe.take(n + 1);
    assert(pre1 =~= pre.push(oe[n]));
    lemma_first_key(acc, kn, 0);
    lemma_first_key(pre, kn, 0);
    lemma_first_key(pre, k, 0);
    lemma_first_key(pre1, k, 0);
    assert(lookup(pre, kn) is None) by {
        if first_key(pre, kn, 0) is Some {
            let i = first_key(pre, kn, 0)->0;
            assert(oe[i].0 == oe[n].0);
        }
    }
    if k == kn {
        lemma_first_key_at(pre1, k, 0, n);
        assert(lookup(pre1, k) == Some(oe[n].1));
        match first_key(acc, kn, 0) {
            Some(i) => {
                let upd = acc.update(i, (kn, merged(acc[i].1, oe[n].1)));
                assert(next == upd);
                lemma_first_key_same_names(acc, upd, k);
                assert(lookup(acc, kn) == Some(acc[i].1));
            },
            None => {
                let psh = acc.push((kn, oe[n].1));
                assert(next == psh);
                lemma_first_key_at(psh, k, 0, acc.len() as int);
                assert(lookup(acc, kn) is None);
            },
        }
    } else {
        match first_key(pre, k, 0) {
            Some(i) => lemma_first_key_at(pre1, k, 0, i),
            None => lemma_first_key_absent(pre1, k, 0),
        }
        assert(lookup(pre1, k) == lookup(pre, k));
        match first_key(acc, kn, 0) {
            Some(i) => {
                let upd = acc.update(i, (kn, merged(acc[i].1, oe[n].1)));
                assert(next == upd);
                lemma_first_key_same_names(acc, upd, k);
                lemma_first_key(acc, k, 0);
                assert(lookup(next, k) == lookup(acc, k));
            },
            None => {
                let psh = acc.push((kn, oe[n].1));
                assert(next == psh);
                lemma_first_key(acc, k, 0);
                match first_key(acc, k, 0) {
                    Some(i) => lemma_first_key_at(psh, k, 0, i),
                    None => lemma_first_key_absent(psh, k, 0),
                }
                assert(lookup(next, k) == lookup(acc, k));
            },
        }
    }
}

proof fn lemma_merge_prefix(
    be: Seq<(Seq<char>, TreeModel)>,
    oe: Seq<(Seq<char>, TreeModel)>,
    n: int,
)
    requires
        0 <= n <= oe.len(),
        distinct_keys(oe),
    ensures
        forall|k: Seq<char>|
            lookup(merged_entries(be, oe, n), k) == laid_over(
                lookup(be, k),
                #[trigger] lookup(oe.take(n), k),
            ),
    decreases n,
{
    if n == 0 {
        assert forall|k: Seq<char>|
            lookup(merged_entries(be, oe, 0), k) == laid_over(
                lookup(be, k),
                #[trigger] lookup(oe.take(0), k),
            ) by {
            lemma_first_key_absent(oe.take(0), k, 0);
        }
    } else {
        lemma_merge_prefix(be, oe, n - 1);
        assert forall|k: Seq<char>|
            lookup(merged_entries(be, oe, n), k) == laid_over(
                lookup(be, k),
                #[trigger] lookup(oe.take(n), k),
            ) by {
            lemma_merge_step(be, oe, n - 1, k);
        }
    }
}

/// Laying an override table over a base table changes exactly the settings
/// the override names: a setting it does not name keeps its base value, one
/// that only it names is added, and one that both name becomes the base value
/// with the override's value laid over it (recursively, for nested tables).
pub proof fn lemma_merge_lookup(
    be: Seq<(Seq<char>, TreeModel)>,
    oe: Seq<(Seq<char>, TreeModel)>,
    k: Seq<char>,
)
    requires
        distinct_keys(oe),
    ensures
        merged(TreeModel::Table(be), TreeModel::Table(oe)) matches TreeModel::Table(me)
            && lookup(me, k) == laid_over(lookup(be, k), lookup(oe, k)),
{
    lemma_merge_prefix(be, oe, oe.len() as int);
    assert(oe.take(oe.len() as int) =~= oe);
}

/// An override that is not a table, or one laid over a base that is not a
/// table, replaces the base value whole.
pub proof fn lemma_merge_replaces(b: TreeModel, o: TreeModel)
    requires
        !(o is Table) || !(b is Table),
    ensures
        merged(b, o) == o,
{
}

proof fn lemma_entries_model(s: Seq<(String, ConfigTree)>, n: int)
    requires
        0 <= n <= s.len(),
    ensures
        entries_model(s, n).len() == n,
        forall|q: int|
            0 <= q < n ==> #[trigger] entries_model(s, n)[q] == (s[q].0@, tree_model(s[q].1)),
    decreases n,
{
    if n > 0 {
        lemma_entries_model(s, n - 1);
    }
}

proof fn lemma_table_model(s: Seq<(String, ConfigTree)>)
    ensures
        table_model(s).len() == s.len(),
        forall|q: int|
            0 <= q < s.len() ==> #[trigger] table_model(s)[q] == (s[q].0@, tree_model(s[q].1)),
{
    lemma_entries_model(s, s.len() as int);
}

/// A deep copy of `t`.
fn copy_tree(t: &ConfigTree) -> (r: ConfigTree)
    ensures
        tree_model(r) == tree_model(*t),
    decreases t,
{
    match t {
        ConfigTree::Leaf(v) => ConfigTree::Leaf(*v),
        ConfigTree::Table(es) => {
            let mut out: Vec<(String, ConfigTree)> = Vec::new();
            let mut i: usize = 0;
            while i < es.len()
                invariant
                    *t == ConfigTree::Table(*es),
                    i <= es.len(),
                    out@.len() == i,
                    forall|q: int|
                        0 <= q < i ==> (#[trigger] out@[q]).0@ == es@[q].0@ && tree_model(out@[q].1)
                            == tree_model(es@[q].1),
                decreases es.len() - i,
            {
                proof {
                    assert(decreases_to!(*t => (*t)->Table_0));
                    assert(decreases_to!(*es => es@));
                    assert(decreases_to!(es@ => es@[i as int]));
                    assert(decreases_to!(es@[i as int] => es@[i as int].1));
                }
                let c = copy_tree(&es[i].1);
                out.push((es[i].0.clone(), c));
                i = i + 1;
            }
            proof {
                lemma_table_model(out@);
                lemma_table_model(es@);
                assert(table_model(out@) =~= table_model(es@));
            }
            ConfigTree::Table(out)
        },
    }
}

/// The index of the first entry of `es` named `k`.
fn find_entry(es: &Vec<(String, ConfigTree)>, k: &String) -> (r: Option<usize>)
    ensures
        match r {
            Some(i) => first_key(table_model(es@), k@, 0) == Some(i as int),
            None => first_key(table_model(es@), k@, 0) is None,
        },
{
    proof {
        lemma_table_model(es@);
    }
    let mut i: usize = 0;
    while i < es.len()
        invariant
            i <= es.len(),
            table_model(es@).len() == es@.len(),
            forall|q: int| 0 <= q < es@.len() ==> #[trigger] table_model(es@)[q] == (es@[q].0@, tree_model(es@[q].1)),
            first_key(table_model(es@), k@, 0) == first_key(table_model(es@), k@, i as int),
        decreases es.len() - i,
    {
        if es[i].0 == *k {
            return Some(i);
        }
        i = i + 1;
    }
    None
}

/// `over` laid over `base` (see [`merged`]): the deep merge by which a
/// profile overrides the settings it names and keeps all others.
pub fn merge_trees(base: ConfigTree, over: &ConfigTree) -> (r: ConfigTree)
    ensures
        tree_model(r) == merged(tree_model(base), tree_model(*over)),
    decreases over,
{
    match over {
        ConfigTree::Table(oes) => match base {
            ConfigTree::Table(bes) => {
                let ghost bm = table_model(bes@);
                let ghost om = table_model(oes@);
                proof {
                    lemma_table_model(oes@);
                }
                let mut es = bes;
                let mut j: usize = 0;
                while j < oes.len()
                    invariant
                        j <= oes.len(),
                        om == table_model(oes@),
                        om.len() == oes@.len(),
                        forall|q: int| 0 <= q < oes@.len() ==> #[trigger] om[q] == (oes@[q].0@, tree_model(oes@[q].1)),
                        table_model(es@) == merged_entries(bm, om, j as int),
                        *over == ConfigTree::Table(*oes),
                    decreases oes.len() - j,
                {
                    let ghost acc = table_model(es@);
                    proof {
                        lemma_table_model(es@);
                    }
                    let key = &oes[j].0;
                    match find_entry(&es, key) {
                        Some(i) => {
                            let ghost before = es@;
                            proof {
                                lemma_first_key(acc, key@, 0);
                                assert(decreases_to!(*over => (*over)->Table_0));
                                assert(decreases_to!(*oes => oes@));
                                assert(decreases_to!(oes@ => oes@[j as int]));
                                assert(decreases_to!(oes@[j as int] => oes@[j as int].1));
                            }
                            let (name, old_value) = es.remove(i);
                            let m = merge_trees(old_value, &oes[j].1);
                            es.insert(i, (name, m));
                            proof {
                                assert(es@ =~= before.update(i as int, (name, m)));
                                lemma_table_model(es@);
                                assert(table_model(es@) =~= acc.update(
                                    i as int,
                                    (om[j as int].0, merged(acc[i as int].1, om[j as int].1)),
                                ));
                            }
                        },
                        None => {
                            let c = copy_tree(&oes[j].1);
                            es.push((key.clone(), c));
                            proof {
                                lemma_table_model(es@);
                                assert(table_model(es@) =~= acc.push((om[j as int].0, om[j as int].1)));
                            }
                        },
                    }
                    j = j + 1;
                }
                ConfigTree::Table(es)
            },
            ConfigTree::Leaf(_) => copy_tree(over),
        },
        ConfigTree::Leaf(_) => copy_tree(over),
    }
}

} // verus!
