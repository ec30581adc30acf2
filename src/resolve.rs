//! Addressing fields by path, and writing a leaf deep in the tree.
use vstd::prelude::*;
use crate::schema::{
    parse_and_set, parse_leaf, parse_value, same_text, value_fits, value_model, ConfigError, ConfigField,
    ConfigNode, FieldValue, LeafModel,
};

verus! {

/// The names that a path of strings spells.
pub open spec fn names_of(p: Seq<String>) -> Seq<Seq<char>> {
    p.map_values(|s: String| s@)
}

/// The index of the first field called `name`, or -1.
pub open spec fn find_field(fields: Seq<ConfigField>, name: Seq<char>) -> int
    decreases fields.len(),
{
    if fields.len() == 0 {
        -1
    } else if fields[0].meta.name@ == name {
        0
    } else {
        let k = find_field(fields.drop_first(), name);
        if k < 0 {
            -1
        } else {
            k + 1
        }
    }
}

pub proof fn lemma_find_field(fields: Seq<ConfigField>, name: Seq<char>)
    ensures
        -1 <= find_field(fields, name) < fields.len(),
        find_field(fields, name) >= 0 ==> fields[find_field(fields, name)].meta.name@ == name,
        forall|j: int|
            0 <= j < fields.len() && (find_field(fields, name) < 0 || j < find_field(fields, name))
                ==> (#[trigger] fields[j]).meta.name@ != name,
    decreases fields.len(),
{
    if fields.len() > 0 && fields[0].meta.name@ != name {
        lemma_find_field(fields.drop_first(), name);
        assert forall|j: int|
            0 <= j < fields.len() && (find_field(fields, name) < 0 || j < find_field(fields, name))
                implies (#[trigger] fields[j]).meta.name@ != name by {
            if j > 0 {
                assert(fields[j] == fields.drop_first()[j - 1]);
            }
        }
    }
}

/// The search depends on the names alone.
pub proof fn lemma_find_same_names(a: Seq<ConfigField>, b: Seq<ConfigField>, name: Seq<char>)
    requires
        a.len() == b.len(),
        forall|j: int| 0 <= j < a.len() ==> (#[trigger] a[j]).meta.name == b[j].meta.name,
    ensures
        find_field(a, name) == find_field(b, name),
    decreases a.len(),
{
    if a.len() > 0 {
        assert(a[0].meta.name == b[0].meta.name);
        assert forall|j: int| 0 <= j < a.len() - 1 implies (#[trigger] a.drop_first()[j]).meta.name
            == b.drop_first()[j].meta.name by {
            assert(a[j + 1].meta.name == b[j + 1].meta.name);
        }
        lemma_find_same_names(a.drop_first(), b.drop_first(), name);
    }
}

/// The field that `path` names, following subtrees from `node`.
pub open spec fn field_at(node: ConfigNode, path: Seq<Seq<char>>) -> Option<ConfigField>
    decreases path.len(),
{
    if path.len() == 0 {
        None
    } else {
        let i = find_field(node.fields@, path[0]);
        if i < 0 {
            None
        } else if path.len() == 1 {
            Some(node.fields@[i])
        } else if !node.fields@[i].meta.is_nested {
            None
        } else {
            match node.fields@[i].value {
                FieldValue::Nested(c) => field_at(c, path.drop_first()),
                _ => None,
            }
        }
    }
}

/// The outcome of writing `text` at `path`.
pub open spec fn edit_result(node: ConfigNode, path: Seq<Seq<char>>, text: Seq<char>) -> Result<
    (),
    ConfigError,
>
    decreases path.len(),
{
    if path.len() == 0 {
        Err(ConfigError::EmptyPath)
    } else {
        let i = find_field(node.fields@, path[0]);
        if i < 0 {
            Err(ConfigError::NotFound)
        } else if path.len() == 1 {
            match parse_leaf(node.fields@[i].meta, node.fields@[i].value is Unset, text) {
                Some(_) => Ok(()),
                None => Err(ConfigError::ParseError),
            }
        } else if !node.fields@[i].meta.is_nested {
            Err(ConfigError::NotNested)
        } else {
            match node.fields@[i].value {
                FieldValue::Nested(c) => edit_result(c, path.drop_first(), text),
                _ => Err(ConfigError::AccessFailed),
            }
        }
    }
}

/// What an edit at `path` writes: `text` read as the target field's type.
pub open spec fn edit_leaf(node: ConfigNode, path: Seq<Seq<char>>, text: Seq<char>) -> LeafModel {
    let f = field_at(node, path)->Some_0;
    parse_leaf(f.meta, f.value is Unset, text)->Some_0
}

/// `new` is `old` with the leaf at `path` set to `leaf`, and nothing else changed.
pub open spec fn edited(old: ConfigNode, new: ConfigNode, path: Seq<Seq<char>>, leaf: LeafModel) -> bool
    decreases path.len(),
{
    path.len() > 0 && {
        let i = find_field(old.fields@, path[0]);
        &&& 0 <= i < old.fields@.len()
        &&& new.title == old.title
        &&& new.fields@.len() == old.fields@.len()
        &&& forall|j: int|
            0 <= j < old.fields@.len() && j != i ==> #[trigger] new.fields@[j] == old.fields@[j]
        &&& new.fields@[i].meta == old.fields@[i].meta
        &&& if path.len() == 1 {
            !old.fields@[i].meta.is_nested && value_model(new.fields@[i].value) == Some(leaf) && value_fits(
                new.fields@[i].meta,
                new.fields@[i].value,
            )
        } else {
            old.fields@[i].meta.is_nested && old.fields@[i].value is Nested
                && new.fields@[i].value is Nested && edited(
                old.fields@[i].value->Nested_0,
                new.fields@[i].value->Nested_0,
                path.drop_first(),
                leaf,
            )
        }
    }
}

/// The index of the first field called `name`.
pub fn find_field_index(fields: &Vec<ConfigField>, name: &str) -> (r: Option<usize>)
    ensures
        match r {
            Some(i) => i as int == find_field(fields@, name@),
            None => find_field(fields@, name@) == -1,
        },
{
    proof {
        lemma_find_field(fields@, name@);
    }
    let mut i: usize = 0;
    while i < fields.len()
        invariant
            i <= fields@.len(),
            forall|j: int| 0 <= j < i ==> (#[trigger] fields@[j]).meta.name@ != name@,
        decreases fields@.len() - i,
    {
        if same_text(fields[i].meta.name.as_str(), name) {
            proof {
                let k = find_field(fields@, name@);
                lemma_find_field(fields@, name@);
                assert(fields@[i as int].meta.name@ == name@);
                if k < 0 || i < k {
                    assert(fields@[i as int].meta.name@ != name@);
                }
                if 0 <= k < i {
                    assert(fields@[k].meta.name@ != name@);
                }
            }
            return Some(i);
        }
        i = i + 1;
    }
    None
}

/// Whether writing `text` at `path[start..]` below `node` would succeed, and
/// the error it would meet first.
pub fn check_edit_at_path(node: &ConfigNode, path: &Vec<String>, start: usize, text: &str) -> (r:
    Result<(), ConfigError>)
    requires
        start <= path@.len(),
    ensures
        r == edit_result(*node, names_of(path@).skip(start as int), text@),
    decreases path@.len() - start,
{
    let ghost p = names_of(path@).skip(start as int);
    if start >= path.len() {
        return Err(ConfigError::EmptyPath);
    }
    assert(p[0] == path@[start as int]@);
    let i = match find_field_index(&node.fields, path[start].as_str()) {
        Some(i) => i,
        None => {
            return Err(ConfigError::NotFound);
        },
    };
    proof {
        lemma_find_field(node.fields@, p[0]);
    }
    let field = &node.fields[i];
    if start + 1 == path.len() {
        return match parse_value(&field.meta, field.value.is_unset(), text) {
            Some(_) => Ok(()),
            None => Err(ConfigError::ParseError),
        };
    }
    if !field.meta.is_nested {
        return Err(ConfigError::NotNested);
    }
    assert(p.drop_first() =~= names_of(path@).skip(start + 1));
    match &field.value {
        FieldValue::Nested(child) => check_edit_at_path(child, path, start + 1, text),
        _ => Err(ConfigError::AccessFailed),
    }
}

/// Writes `text` to the leaf that `path[start..]` names below `node`, taking
/// each subtree on the way down out of its parent, updating it, and putting
/// it back.
fn write_at_path(node: &mut ConfigNode, path: &Vec<String>, start: usize, text: &str)
    requires
        start <= path@.len(),
        edit_result(*old(node), names_of(path@).skip(start as int), text@) is Ok,
    ensures
        ({
            let p = names_of(path@).skip(start as int);
            edited(*old(node), *final(node), p, edit_leaf(*old(node), p, text@))
        }),
    decreases path@.len() - start,
{
    let ghost p = names_of(path@).skip(start as int);
    let n = path.len();
    assert(p.len() == n - start);
    assert(p.len() > 0);
    assert(p[0] == path@[start as int]@);
    let i = match find_field_index(&node.fields, path[start].as_str()) {
        Some(i) => i,
        None => {
            return;
        },
    };
    proof {
        lemma_find_field(node.fields@, p[0]);
    }
    if start + 1 == path.len() {
        let _ = parse_and_set(&mut node.fields[i], text);
        return;
    }
    assert(p.drop_first() =~= names_of(path@).skip(start + 1));
    let mut capsule = FieldValue::Unset;
    std::mem::swap(&mut capsule, &mut node.fields[i].value);
    match capsule {
        FieldValue::Nested(mut child) => {
            write_at_path(&mut child, path, start + 1, text);
            node.fields[i].value = FieldValue::Nested(child);
        },
        other => {
            node.fields[i].value = other;
        },
    }
}

/// Writes `text` to the leaf that `path[start..]` names below `node`. On any
/// error nothing is written.
pub fn set_field_at_path(node: &mut ConfigNode, path: &Vec<String>, start: usize, text: &str) -> (r:
    Result<(), ConfigError>)
    requires
        start <= path@.len(),
    ensures
        ({
            let p = names_of(path@).skip(start as int);
            &&& r == edit_result(*old(node), p, text@)
            &&& r is Ok ==> edited(*old(node), *final(node), p, edit_leaf(*old(node), p, text@))
            &&& r is Err ==> *final(node) == *old(node)
        }),
{
    let r = check_edit_at_path(node, path, start, text);
    if r.is_ok() {
        write_at_path(node, path, start, text);
    }
    r
}

/// Writes `text` to the leaf that `path` names.
pub fn apply_edit_at_path(root: &mut ConfigNode, path: &Vec<String>, text: &str) -> (r: Result<
    (),
    ConfigError,
>)
    ensures
        r == edit_result(*old(root), names_of(path@), text@),
        r is Ok ==> edited(
            *old(root),
            *final(root),
            names_of(path@),
            edit_leaf(*old(root), names_of(path@), text@),
        ),
        r is Err ==> *final(root) == *old(root),
{
    assert(names_of(path@).skip(0) =~= names_of(path@));
    set_field_at_path(root, path, 0, text)
}

/// The two paths name different fields at some depth that both reach.
pub open spec fn parts_from(p: Seq<Seq<char>>, q: Seq<Seq<char>>) -> bool {
    exists|k: int| 0 <= k < p.len() && k < q.len() && p[k] != q[k]
}

/// `q` is `p` or names one of the fields on the way down to it.
pub open spec fn is_prefix(q: Seq<Seq<char>>, p: Seq<Seq<char>>) -> bool {
    q.len() <= p.len() && q == p.take(q.len() as int)
}

/// Below an edited leaf there is nothing, before the edit as after it.
proof fn lemma_past_leaf(old: ConfigNode, new: ConfigNode, p: Seq<Seq<char>>, leaf: LeafModel, q: Seq<Seq<char>>)
    requires
        edited(old, new, p, leaf),
        q.len() > p.len(),
        q.take(p.len() as int) == p,
    ensures
        field_at(new, q) is None,
        field_at(old, q) is None,
    decreases p.len(),
{
    assert(q[0] == q.take(p.len() as int)[0]);
    lemma_edited_same_names(old, new, p, leaf, q[0]);
    let i = find_field(old.fields@, p[0]);
    if p.len() > 1 {
        assert(q.drop_first().take(p.len() - 1) =~= p.drop_first()) by {
            assert forall|k: int| 0 <= k < p.len() - 1 implies q.drop_first()[k] == p.drop_first()[k] by {
                assert(q[k + 1] == q.take(p.len() as int)[k + 1]);
            }
        }
        lemma_past_leaf(
            old.fields@[i].value->Nested_0,
            new.fields@[i].value->Nested_0,
            p.drop_first(),
            leaf,
            q.drop_first(),
        );
    }
}

proof fn lemma_edited_same_names(old: ConfigNode, new: ConfigNode, path: Seq<Seq<char>>, leaf: LeafModel, name: Seq<char>)
    requires
        edited(old, new, path, leaf),
    ensures
        find_field(new.fields@, name) == find_field(old.fields@, name),
{
    let i = find_field(old.fields@, path[0]);
    assert forall|j: int| 0 <= j < old.fields@.len() implies (#[trigger] old.fields@[j]).meta.name
        == new.fields@[j].meta.name by {
        if j != i {
            assert(new.fields@[j] == old.fields@[j]);
        }
    }
    lemma_find_same_names(old.fields@, new.fields@, name);
}

proof fn lemma_read_back(old: ConfigNode, new: ConfigNode, path: Seq<Seq<char>>, leaf: LeafModel)
    requires
        edited(old, new, path, leaf),
    ensures
        field_at(old, path) is Some,
        field_at(new, path) is Some,
        field_at(new, path)->Some_0.meta == field_at(old, path)->Some_0.meta,
        value_model(field_at(new, path)->Some_0.value) == Some(leaf),
        value_fits(field_at(new, path)->Some_0.meta, field_at(new, path)->Some_0.value),
    decreases path.len(),
{
    lemma_edited_same_names(old, new, path, leaf, path[0]);
    let i = find_field(old.fields@, path[0]);
    if path.len() > 1 {
        lemma_read_back(
            old.fields@[i].value->Nested_0,
            new.fields@[i].value->Nested_0,
            path.drop_first(),
            leaf,
        );
    }
}

proof fn lemma_other_paths_kept(
    old: ConfigNode,
    new: ConfigNode,
    p: Seq<Seq<char>>,
    leaf: LeafModel,
    q: Seq<Seq<char>>,
)
    requires
        edited(old, new, p, leaf),
        parts_from(p, q),
    ensures
        field_at(new, q) == field_at(old, q),
    decreases p.len(),
{
    let k = choose|k: int| 0 <= k < p.len() && k < q.len() && p[k] != q[k];
    lemma_find_field(old.fields@, p[0]);
    lemma_find_field(old.fields@, q[0]);
    lemma_edited_same_names(old, new, p, leaf, q[0]);
    let i = find_field(old.fields@, p[0]);
    let j = find_field(old.fields@, q[0]);
    if p[0] != q[0] {
        if j >= 0 {
            assert(j != i);
            assert(new.fields@[j] == old.fields@[j]);
        }
    } else {
        assert(k >= 1);
        assert(p.drop_first()[k - 1] != q.drop_first()[k - 1]);
        lemma_other_paths_kept(
            old.fields@[i].value->Nested_0,
            new.fields@[i].value->Nested_0,
            p.drop_first(),
            leaf,
            q.drop_first(),
        );
    }
}

/// After a write at `path`, reading `path` back gives the written leaf under
/// the same descriptor, and every field but those on the way down to it
/// holds exactly what it held before.
pub proof fn lemma_write_then_read(old: ConfigNode, new: ConfigNode, path: Seq<Seq<char>>, leaf: LeafModel)
    requires
        edited(old, new, path, leaf),
    ensures
        field_at(old, path) is Some,
        field_at(new, path) is Some,
        field_at(new, path)->Some_0.meta == field_at(old, path)->Some_0.meta,
        value_model(field_at(new, path)->Some_0.value) == Some(leaf),
        value_fits(field_at(new, path)->Some_0.meta, field_at(new, path)->Some_0.value),
        forall|q: Seq<Seq<char>>| !is_prefix(q, path) ==> #[trigger] field_at(new, q) == field_at(old, q),
{
    lemma_read_back(old, new, path, leaf);
    assert forall|q: Seq<Seq<char>>| !is_prefix(q, path) implies #[trigger] field_at(new, q)
        == field_at(old, q) by {
        if parts_from(path, q) {
            lemma_other_paths_kept(old, new, path, leaf, q);
        } else {
            if q.len() <= path.len() {
                assert(q =~= path.take(q.len() as int)) by {
                    assert forall|k: int| 0 <= k < q.len() implies q[k] == path.take(q.len() as int)[k] by {
                        if q[k] != path[k] {
                            assert(parts_from(path, q));
                        }
                    }
                }
            } else {
                assert(q.take(path.len() as int) =~= path) by {
                    assert forall|k: int| 0 <= k < path.len() implies q.take(path.len() as int)[k] == path[k] by {
                        if q[k] != path[k] {
                            assert(parts_from(path, q));
                        }
                    }
                }
                lemma_past_leaf(old, new, path, leaf, q);
            }
        }
    }
}

/// The subtree that `path` leads to from `root`; the root itself for the empty path.
pub open spec fn node_at(root: ConfigNode, path: Seq<Seq<char>>) -> Option<ConfigNode> {
    if path.len() == 0 {
        Some(root)
    } else {
        match field_at(root, path) {
            Some(f) => if f.meta.is_nested {
                match f.value {
                    FieldValue::Nested(c) => Some(c),
                    _ => None,
                }
            } else {
                None
            },
            None => None,
        }
    }
}

/// One step below a subtree that a path leads to is one step further along the path.
pub proof fn lemma_field_at_push(root: ConfigNode, p: Seq<Seq<char>>, name: Seq<char>)
    requires
        node_at(root, p) is Some,
    ensures
        field_at(root, p.push(name)) == field_at(node_at(root, p)->Some_0, seq![name]),
    decreases p.len(),
{
    if p.len() > 0 {
        let i = find_field(root.fields@, p[0]);
        assert(p.push(name)[0] == p[0]);
        assert(p.push(name).drop_first() =~= p.drop_first().push(name));
        if p.len() > 1 {
            let c = root.fields@[i].value->Nested_0;
            assert(node_at(c, p.drop_first()) == node_at(root, p));
            lemma_field_at_push(c, p.drop_first(), name);
        } else {
            assert(p.drop_first().push(name) =~= seq![name]);
        }
    }
}

pub proof fn lemma_node_at_push(root: ConfigNode, q: Seq<Seq<char>>, name: Seq<char>)
    requires
        node_at(root, q) is Some,
    ensures
        node_at(root, q.push(name)) == node_at(node_at(root, q)->Some_0, seq![name]),
{
    lemma_field_at_push(root, q, name);
}

/// Along the path of an edit, every strict prefix still leads to a subtree,
/// and below it the edit is the rest of the path.
pub proof fn lemma_edited_prefix(old: ConfigNode, new: ConfigNode, p: Seq<Seq<char>>, leaf: LeafModel, m: int)
    requires
        edited(old, new, p, leaf),
        0 <= m < p.len(),
    ensures
        node_at(old, p.take(m)) is Some,
        node_at(new, p.take(m)) is Some,
        edited(node_at(old, p.take(m))->Some_0, node_at(new, p.take(m))->Some_0, p.skip(m), leaf),
    decreases m,
{
    if m == 0 {
        assert(p.take(0) =~= Seq::<Seq<char>>::empty());
        assert(p.skip(0) =~= p);
    } else {
        lemma_edited_prefix(old, new, p, leaf, m - 1);
        let q = p.take(m - 1);
        let a = node_at(old, q)->Some_0;
        let b = node_at(new, q)->Some_0;
        let rest = p.skip(m - 1);
        assert(rest[0] == p[m - 1]);
        assert(p.take(m) =~= q.push(p[m - 1]));
        assert(rest.drop_first() =~= p.skip(m));
        lemma_node_at_push(old, q, p[m - 1]);
        lemma_node_at_push(new, q, p[m - 1]);
        lemma_edited_same_names(a, b, rest, leaf, p[m - 1]);
    }
}

/// The subtree that `path` leads to from `root`.
pub fn resolve_node<'a>(root: &'a ConfigNode, path: &Vec<String>) -> (r: Option<&'a ConfigNode>)
    ensures
        match r {
            Some(n) => node_at(*root, names_of(path@)) == Some(*n),
            None => node_at(*root, names_of(path@)) is None,
        },
{
    let mut cur: &ConfigNode = root;
    let mut k: usize = 0;
    assert(names_of(path@).take(0) =~= Seq::<Seq<char>>::empty());
    while k < path.len()
        invariant
            k <= path@.len(),
            node_at(*root, names_of(path@).take(k as int)) == Some(*cur),
        decreases path@.len() - k,
    {
        let ghost q = names_of(path@).take(k as int);
        let ghost name = path@[k as int]@;
        proof {
            lemma_node_at_push(*root, q, name);
            assert(names_of(path@).take(k + 1) =~= q.push(name));
            lemma_find_field(cur.fields@, name);
        }
        let i = match find_field_index(&cur.fields, path[k].as_str()) {
            Some(i) => i,
            None => {
                proof {
                    lemma_none_below(*root, names_of(path@), k + 1);
                }
                return None;
            },
        };
        if !cur.fields[i].meta.is_nested {
            proof {
                lemma_none_below(*root, names_of(path@), k + 1);
            }
            return None;
        }
        match &cur.fields[i].value {
            FieldValue::Nested(c) => {
                cur = c;
            },
            _ => {
                proof {
                    lemma_none_below(*root, names_of(path@), k + 1);
                }
                return None;
            },
        }
        k = k + 1;
    }
    assert(names_of(path@).take(k as int) =~= names_of(path@));
    Some(cur)
}

/// Where a prefix leads nowhere, so does the whole path.
proof fn lemma_none_below(root: ConfigNode, p: Seq<Seq<char>>, m: int)
    requires
        0 < m <= p.len(),
        node_at(root, p.take(m)) is None,
    ensures
        node_at(root, p) is None,
    decreases p.len() - m,
{
    if m < p.len() {
        assert(p.take(m + 1) =~= p.take(m).push(p[m]));
        if node_at(root, p.take(m + 1)) is Some {
            lemma_some_prefix(root, p.take(m + 1), m);
            assert(p.take(m + 1).take(m) =~= p.take(m));
        }
        lemma_none_below(root, p, m + 1);
    } else {
        assert(p.take(m) =~= p);
    }
}

/// Where a path leads to a subtree, so does each of its prefixes.
proof fn lemma_some_prefix(root: ConfigNode, p: Seq<Seq<char>>, m: int)
    requires
        0 <= m <= p.len(),
        node_at(root, p) is Some,
    ensures
        node_at(root, p.take(m)) is Some,
    decreases p.len(),
{
    if m == p.len() {
        assert(p.take(m) =~= p);
    } else if m == 0 {
        assert(p.take(0) =~= Seq::<Seq<char>>::empty());
    } else {
        let i = find_field(root.fields@, p[0]);
        let c = root.fields@[i].value->Nested_0;
        if p.len() > 1 {
            assert(node_at(c, p.drop_first()) == node_at(root, p));
            lemma_some_prefix(c, p.drop_first(), m - 1);
            assert(p.drop_first().take(m - 1) =~= p.take(m).drop_first());
            assert(p.take(m)[0] == p[0]);
            if m > 1 {
                assert(node_at(c, p.take(m).drop_first()) == node_at(root, p.take(m)));
            } else {
                assert(p.take(m) =~= seq![p[0]]);
            }
        }
    }
}

/// Writing one step below a subtree that a path leads to meets what writing
/// in that subtree meets.
pub proof fn lemma_edit_result_below(root: ConfigNode, q: Seq<Seq<char>>, name: Seq<char>, text: Seq<char>)
    requires
        node_at(root, q) is Some,
    ensures
        edit_result(root, q.push(name), text) == edit_result(node_at(root, q)->Some_0, seq![name], text),
    decreases q.len(),
{
    if q.len() > 0 {
        let i = find_field(root.fields@, q[0]);
        assert(q.push(name)[0] == q[0]);
        assert(q.push(name).drop_first() =~= q.drop_first().push(name));
        if q.len() > 1 {
            let c = root.fields@[i].value->Nested_0;
            assert(node_at(c, q.drop_first()) == node_at(root, q));
            lemma_edit_result_below(c, q.drop_first(), name, text);
        } else {
            assert(q.drop_first().push(name) =~= seq![name]);
        }
    }
}

/// One structure is sound: no two fields share a name, and every value
/// agrees with its descriptor.
pub open spec fn level_ok(node: ConfigNode) -> bool {
    &&& forall|i: int, j: int|
        0 <= i < j < node.fields@.len() ==> (#[trigger] node.fields@[i]).meta.name@
            != (#[trigger] node.fields@[j]).meta.name@
    &&& forall|i: int|
        0 <= i < node.fields@.len() ==> value_fits(
            (#[trigger] node.fields@[i]).meta,
            node.fields@[i].value,
        )
}

/// Every structure of the tree is sound, as every schema makes it.
pub open spec fn tree_ok(root: ConfigNode) -> bool {
    forall|p: Seq<Seq<char>>| #[trigger] node_at(root, p) is Some ==> level_ok(node_at(root, p)->Some_0)
}

proof fn lemma_node_at_step(root: ConfigNode, q: Seq<Seq<char>>)
    requires
        q.len() >= 1,
    ensures
        node_at(root, q) == ({
            let j = find_field(root.fields@, q[0]);
            if j < 0 || !root.fields@[j].meta.is_nested {
                None
            } else {
                match root.fields@[j].value {
                    FieldValue::Nested(c) => node_at(c, q.drop_first()),
                    _ => None,
                }
            }
        }),
{
}

/// An edit keeps the tree sound.
pub proof fn lemma_edit_keeps_tree_ok(old: ConfigNode, new: ConfigNode, p: Seq<Seq<char>>, leaf: LeafModel)
    requires
        edited(old, new, p, leaf),
        tree_ok(old),
    ensures
        tree_ok(new),
    decreases p.len(),
{
    assert forall|q: Seq<Seq<char>>| #[trigger] node_at(new, q) is Some implies level_ok(
        node_at(new, q)->Some_0,
    ) by {
        lemma_edit_keeps_level(old, new, p, leaf, q);
    }
}

proof fn lemma_edit_keeps_level(old: ConfigNode, new: ConfigNode, p: Seq<Seq<char>>, leaf: LeafModel, q: Seq<Seq<char>>)
    requires
        edited(old, new, p, leaf),
        tree_ok(old),
        node_at(new, q) is Some,
    ensures
        level_ok(node_at(new, q)->Some_0),
    decreases p.len(),
{
    let i = find_field(old.fields@, p[0]);
    lemma_find_field(old.fields@, p[0]);
    assert(node_at(old, Seq::empty()) is Some);
    assert(level_ok(old));
    if q.len() == 0 {
        assert forall|a: int, b: int| 0 <= a < b < new.fields@.len() implies (#[trigger] new.fields@[a]).meta.name@
            != (#[trigger] new.fields@[b]).meta.name@ by {
            assert(old.fields@[a].meta.name@ != old.fields@[b].meta.name@);
            if a != i {
                assert(new.fields@[a] == old.fields@[a]);
            }
            if b != i {
                assert(new.fields@[b] == old.fields@[b]);
            }
        }
        assert forall|a: int| 0 <= a < new.fields@.len() implies value_fits(
            (#[trigger] new.fields@[a]).meta,
            new.fields@[a].value,
        ) by {
            if a != i {
                assert(new.fields@[a] == old.fields@[a]);
            } else {
                assert(value_fits(old.fields@[a].meta, old.fields@[a].value));
            }
        }
    } else {
        lemma_node_at_step(new, q);
        lemma_node_at_step(old, q);
        lemma_edited_same_names(old, new, p, leaf, q[0]);
        lemma_find_field(old.fields@, q[0]);
        let j = find_field(old.fields@, q[0]);
        if j < 0 {
        } else if j != i {
            assert(new.fields@[j] == old.fields@[j]);
            assert(node_at(new, q) == node_at(old, q));
        } else {
            assert(p.len() > 1);
            let a = old.fields@[i].value->Nested_0;
            let b = new.fields@[i].value->Nested_0;
            assert forall|r: Seq<Seq<char>>| #[trigger] node_at(a, r) is Some implies level_ok(
                node_at(a, r)->Some_0,
            ) by {
                let full = seq![p[0]] + r;
                assert(full[0] == p[0]);
                assert(full.drop_first() =~= r);
                lemma_node_at_step(old, full);
                assert(node_at(old, full) == node_at(a, r));
            }
            lemma_edit_keeps_level(a, b, p.drop_first(), leaf, q.drop_first());
        }
    }
}

} // verus!
