use vstd::prelude::*;
use crate::error::CozoError;
use crate::tuple::{DataKind, Prefix, Tuple, TupleV};
use crate::value::{Value, ValueV};

verus! {

/// One binding: a name and the definition tuple bound to it.
pub type Binding = (Seq<char>, TupleV);

/// The content of the in-memory environment.
pub struct EnvView {
    /// Bindings of the root namespace.
    pub root: Seq<Binding>,
    /// Bindings of each lexical scope, outermost first.
    pub scopes: Seq<Seq<Binding>>,
    /// Last storage id given out for root definitions.
    pub root_ids: u32,
    /// Last storage id given out for local definitions.
    pub local_ids: u32,
}

/// The definition bound to `n` in one namespace.
pub open spec fn lookup(s: Seq<Binding>, n: Seq<char>) -> Option<TupleV>
    decreases s.len(),
{
    if s.len() == 0 {
        None
    } else if s.last().0 == n {
        Some(s.last().1)
    } else {
        lookup(s.drop_last(), n)
    }
}

/// A namespace with the binding of `n` taken out.
pub open spec fn without(s: Seq<Binding>, n: Seq<char>) -> Seq<Binding>
    decreases s.len(),
{
    if s.len() == 0 {
        s
    } else if s.last().0 == n {
        without(s.drop_last(), n)
    } else {
        without(s.drop_last(), n).push(s.last())
    }
}

/// A namespace with `n` bound to `t`, replacing an earlier binding of `n`.
pub open spec fn put(s: Seq<Binding>, n: Seq<char>, t: TupleV) -> Seq<Binding> {
    without(s, n).push((n, t))
}

/// Name resolution: the innermost scope that binds `n` wins, then the root.
pub open spec fn resolve_in(scopes: Seq<Seq<Binding>>, root: Seq<Binding>, n: Seq<char>) -> Option<
    TupleV,
>
    decreases scopes.len(),
{
    if scopes.len() == 0 {
        lookup(root, n)
    } else {
        match lookup(scopes.last(), n) {
            Some(t) => Some(t),
            None => resolve_in(scopes.drop_last(), root, n),
        }
    }
}

/// What `resolve` gives for `n`.
pub open spec fn spec_resolve(e: EnvView, n: Seq<char>) -> Option<TupleV> {
    resolve_in(e.scopes, e.root, n)
}

/// The environment after entering a scope.
pub open spec fn spec_push(e: EnvView) -> EnvView {
    EnvView { scopes: e.scopes.push(Seq::empty()), ..e }
}

/// The environment after leaving a scope; the outermost scope stays.
pub open spec fn spec_pop(e: EnvView) -> EnvView {
    if e.scopes.len() > 1 {
        EnvView { scopes: e.scopes.drop_last(), ..e }
    } else {
        e
    }
}

/// The environment after binding `n` to `t`, at the root or in the innermost scope.
pub open spec fn spec_define(e: EnvView, n: Seq<char>, t: TupleV, in_root: bool) -> EnvView {
    if in_root {
        EnvView { root: put(e.root, n, t), ..e }
    } else {
        EnvView { scopes: e.scopes.update(e.scopes.len() - 1, put(e.scopes.last(), n, t)), ..e }
    }
}

/// Scopes with the binding of `n` taken out of the innermost scope that binds
/// it; unchanged when no scope binds `n`.
pub open spec fn delete_in_scopes(scopes: Seq<Seq<Binding>>, n: Seq<char>) -> Seq<Seq<Binding>>
    decreases scopes.len(),
{
    if scopes.len() == 0 {
        scopes
    } else if lookup(scopes.last(), n) is Some {
        scopes.update(scopes.len() - 1, without(scopes.last(), n))
    } else {
        delete_in_scopes(scopes.drop_last(), n).push(scopes.last())
    }
}

/// The environment after removing the binding of `n`: from the root, or from
/// the innermost scope that binds it.
pub open spec fn spec_delete(e: EnvView, n: Seq<char>, in_root: bool) -> EnvView {
    if in_root {
        EnvView { root: without(e.root, n), ..e }
    } else {
        EnvView { scopes: delete_in_scopes(e.scopes, n), ..e }
    }
}

/// Depth of the innermost scope: the root is 0, each scope one below its parent.
pub open spec fn spec_depth(e: EnvView) -> int {
    -(e.scopes.len() as int)
}

/// The key under which a definition is looked up: its name and its depth code.
pub open spec fn spec_definable_key(e: EnvView, n: Seq<char>, in_root: bool) -> TupleV {
    TupleV {
        prefix: Prefix::Null,
        elems: seq![ValueV::Text(n), ValueV::Int(if in_root { 0 } else { spec_depth(e) as i64 })],
    }
}

/// The tuple that binds a plain value.
pub open spec fn value_tuple(v: ValueV) -> TupleV {
    TupleV { prefix: Prefix::Data(DataKind::Value), elems: seq![v] }
}

pub open spec fn binding_view(b: (String, Tuple)) -> Binding {
    (b.0@, b.1@)
}

pub open spec fn scope_view(s: Seq<(String, Tuple)>) -> Seq<Binding> {
    s.map_values(|b: (String, Tuple)| binding_view(b))
}

pub open spec fn opt_tuple_view(o: Option<Tuple>) -> Option<TupleV> {
    match o {
        Some(t) => Some(t@),
        None => None,
    }
}

/// Scope management over some storage: name resolution, definitions and
/// storage ids, stated over the content of the environment.
pub trait Environment: Sized {
    /// The content of the environment.
    spec fn env(&self) -> EnvView;

    /// The environment's own invariant holds.
    spec fn env_wf(&self) -> bool;

    /// A fresh storage id, from the root sequence or from the local one.
    fn get_next_storage_id(&mut self, in_root: bool) -> (r: Result<u32, CozoError>)
        requires
            old(self).env_wf(),
        ensures
            final(self).env_wf(),
            in_root ==> match r {
                Ok(id) => old(self).env().root_ids < u32::MAX && id == old(self).env().root_ids + 1
                    && final(self).env() == (EnvView { root_ids: id, ..old(self).env() }),
                Err(e) => old(self).env().root_ids == u32::MAX && e is StorageIdExhausted
                    && final(self).env() == old(self).env(),
            },
            !in_root ==> match r {
                Ok(id) => old(self).env().local_ids < u32::MAX && id == old(self).env().local_ids + 1
                    && final(self).env() == (EnvView { local_ids: id, ..old(self).env() }),
                Err(e) => old(self).env().local_ids == u32::MAX && e is StorageIdExhausted
                    && final(self).env() == old(self).env(),
            },
    ;

    /// Depth of the innermost scope.
    fn get_stack_depth(&self) -> (r: i32)
        requires
            self.env_wf(),
        ensures
            r == spec_depth(self.env()),
    ;

    /// Enters a new, empty scope.
    fn push_env(&mut self)
        requires
            old(self).env_wf(),
            old(self).env().scopes.len() < i32::MAX,
        ensures
            final(self).env_wf(),
            final(self).env() == spec_push(old(self).env()),
    ;

    /// Leaves the innermost scope with all its bindings; the outermost scope is kept.
    fn pop_env(&mut self) -> (r: Result<(), CozoError>)
        requires
            old(self).env_wf(),
        ensures
            final(self).env_wf(),
            r is Ok,
            final(self).env() == spec_pop(old(self).env()),
    ;

    /// The definition bound to `name`, innermost scope first, then the root.
    fn resolve(&self, name: &str) -> (r: Result<Option<Tuple>, CozoError>)
        requires
            self.env_wf(),
        ensures
            r is Ok,
            opt_tuple_view(r->Ok_0) == spec_resolve(self.env(), name@),
    ;

    /// Removes the binding of `name` from the root or from the innermost scope.
    fn delete_defined(&mut self, name: &str, in_root: bool) -> (r: Result<(), CozoError>)
        requires
            old(self).env_wf(),
        ensures
            final(self).env_wf(),
            r is Ok,
            final(self).env() == spec_delete(old(self).env(), name@, in_root),
    ;

    /// Binds `name` to `data` at the root or in the innermost scope.
    fn define_data(&mut self, name: &str, data: Tuple, in_root: bool) -> (r: Result<(), CozoError>)
        requires
            old(self).env_wf(),
        ensures
            final(self).env_wf(),
            r is Ok,
            final(self).env() == spec_define(old(self).env(), name@, data@, in_root),
    ;

    /// Binds `name` to a plain value.
    fn define_variable(&mut self, name: &str, val: &Value, in_root: bool) -> (r: Result<
        (),
        CozoError,
    >)
        requires
            old(self).env_wf(),
        ensures
            final(self).env_wf(),
            r is Ok,
            final(self).env() == spec_define(old(self).env(), name@, value_tuple(val@), in_root),
    {
        let mut data = Tuple::with_data_prefix(DataKind::Value);
        data.push_value(val);
        self.define_data(name, data, in_root)
    }


    /// The lookup key of `name`: the name and the depth code, 0 at the root.
    fn encode_definable_key(&self, name: &str, in_root: bool) -> (r: Tuple)
        requires
            self.env_wf(),
        ensures
            r@ == spec_definable_key(self.env(), name@, in_root),
    {
        let depth_code: i64 = if in_root {
            0
        } else {
            self.get_stack_depth() as i64
        };
        let mut tuple = Tuple::with_null_prefix();
        tuple.push_str(name.to_owned());
        tuple.push_int(depth_code);
        assert(tuple@.elems =~= spec_definable_key(self.env(), name@, in_root).elems);
        tuple
    }
}

/// An environment held in memory: a root namespace and a stack of scopes.
pub struct MemoryEnv {
    root: Vec<(String, Tuple)>,
    stack: Vec<Vec<(String, Tuple)>>,
    root_ids: u32,
    local_ids: u32,
}

impl View for MemoryEnv {
    type V = EnvView;

    closed spec fn view(&self) -> EnvView {
        EnvView {
            root: scope_view(self.root@),
            scopes: self.stack@.map_values(|s: Vec<(String, Tuple)>| scope_view(s@)),
            root_ids: self.root_ids,
            local_ids: self.local_ids,
        }
    }
}

/// The binding of `n` is gone from a namespace once it is taken out; others stay.
pub proof fn lemma_lookup_without(s: Seq<Binding>, n: Seq<char>, m: Seq<char>)
    ensures
        lookup(without(s, n), m) == if m == n {
            None
        } else {
            lookup(s, m)
        },
    decreases s.len(),
{
    if s.len() > 0 {
        lemma_lookup_without(s.drop_last(), n, m);
        if s.last().0 != n {
            assert(without(s, n).drop_last() =~= without(s.drop_last(), n));
        }
    }
}

/// After binding `n` to `t`, `n` finds `t` and every other name finds what it found.
pub proof fn lemma_lookup_put(s: Seq<Binding>, n: Seq<char>, t: TupleV, m: Seq<char>)
    ensures
        lookup(put(s, n, t), m) == if m == n {
            Some(t)
        } else {
            lookup(s, m)
        },
{
    lemma_lookup_without(s, n, m);
    assert(put(s, n, t).drop_last() =~= without(s, n));
}

/// A binding made in a scope does not outlive it: after entering a scope,
/// binding `n` there and leaving it, every name resolves as it did before.
pub proof fn lemma_scope_does_not_leak(e: EnvView, n: Seq<char>, t: TupleV, m: Seq<char>)
    requires
        e.scopes.len() >= 1,
    ensures
        spec_resolve(spec_pop(spec_define(spec_push(e), n, t, false)), m) == spec_resolve(e, m),
{
    let inner = spec_define(spec_push(e), n, t, false);
    assert(inner.scopes.drop_last() =~= e.scopes);
    assert(inner.root == e.root);
}

/// A binding in the innermost scope shadows every outer binding of the same
/// name, and the root one.
pub proof fn lemma_innermost_binding_wins(e: EnvView, n: Seq<char>, t: TupleV)
    requires
        e.scopes.len() >= 1,
    ensures
        spec_resolve(spec_define(e, n, t, false), n) == Some(t),
{
    let d = spec_define(e, n, t, false);
    lemma_lookup_put(e.scopes.last(), n, t, n);
    assert(d.scopes.last() == put(e.scopes.last(), n, t));
}

/// Binding `n` at an outer scope and then again in a nested scope: inside the
/// nested scope `n` resolves to the inner binding.
pub proof fn lemma_nested_shadowing(e: EnvView, n: Seq<char>, outer: TupleV, inner: TupleV)
    requires
        e.scopes.len() >= 1,
    ensures
        spec_resolve(spec_define(spec_push(spec_define(e, n, outer, false)), n, inner, false), n)
            == Some(inner),
{
    lemma_innermost_binding_wins(spec_push(spec_define(e, n, outer, false)), n, inner);
}

/// A root binding stays visible across a nested scope that does not bind its name.
pub proof fn lemma_root_binding_survives(
    e: EnvView,
    n: Seq<char>,
    t: TupleV,
    local: Seq<char>,
    u: TupleV,
)
    requires
        e.scopes.len() >= 1,
        spec_resolve(e, n) == Some(t),
    ensures
        spec_resolve(spec_pop(spec_define(spec_push(e), local, u, false)), n) == Some(t),
{
    lemma_scope_does_not_leak(e, local, u, n);
}

/// Where no scope binds `n`, resolution falls back to the root.
proof fn lemma_resolve_falls_to_root(scopes: Seq<Seq<Binding>>, root: Seq<Binding>, n: Seq<char>)
    requires
        forall|i: int| 0 <= i < scopes.len() ==> #[trigger] lookup(scopes[i], n) is None,
    ensures
        resolve_in(scopes, root, n) == lookup(root, n),
    decreases scopes.len(),
{
    if scopes.len() > 0 {
        assert(lookup(scopes[scopes.len() - 1], n) is None);
        let d = scopes.drop_last();
        assert forall|i: int| 0 <= i < d.len() implies #[trigger] lookup(d[i], n) is None by {
            assert(d[i] == scopes[i]);
        }
        lemma_resolve_falls_to_root(d, root, n);
    }
}

/// A value bound by `define_variable` is what `resolve` then gives, wrapped in
/// a value tuple: locally always, at the root where no scope binds the name.
pub proof fn lemma_defined_variable_resolves(e: EnvView, n: Seq<char>, v: ValueV, in_root: bool)
    requires
        e.scopes.len() >= 1,
        in_root ==> forall|i: int| 0 <= i < e.scopes.len() ==> #[trigger] lookup(e.scopes[i], n) is None,
    ensures
        spec_resolve(spec_define(e, n, value_tuple(v), in_root), n) == Some(value_tuple(v)),
{
    if in_root {
        let d = spec_define(e, n, value_tuple(v), in_root);
        lemma_lookup_put(e.root, n, value_tuple(v), n);
        lemma_resolve_falls_to_root(d.scopes, d.root, n);
    } else {
        lemma_innermost_binding_wins(e, n, value_tuple(v));
    }
}

/// Takes the binding of `n` out of one namespace.
fn remove_name(s: &mut Vec<(String, Tuple)>, n: &String)
    ensures
        scope_view(final(s)@) == without(scope_view(old(s)@), n@),
{
    let mut out: Vec<(String, Tuple)> = Vec::new();
    let mut i: usize = 0;
    while i < s.len()
        invariant
            0 <= i <= s@.len(),
            scope_view(out@) == without(scope_view(s@.subrange(0, i as int)), n@),
        decreases s@.len() - i,
    {
        proof {
            assert(scope_view(s@.subrange(0, i + 1)).drop_last() =~= scope_view(
                s@.subrange(0, i as int),
            ));
        }
        if s[i].0 != *n {
            let b = (s[i].0.clone(), s[i].1.deep_clone());
            out.push(b);
            proof {
                assert(scope_view(out@) =~= without(scope_view(s@.subrange(0, i as int)), n@).push(
                    binding_view(s@[i as int]),
                ));
            }
        }
        i += 1;
    }
    proof {
        assert(s@.subrange(0, i as int) =~= s@);
    }
    *s = out;
}

/// Binds `n` to `t` in one namespace.
fn put_name(s: &mut Vec<(String, Tuple)>, n: String, t: Tuple)
    ensures
        scope_view(final(s)@) == put(scope_view(old(s)@), n@, t@),
{
    remove_name(s, &n);
    let ghost before = s@;
    s.push((n, t));
    proof {
        assert(scope_view(s@) =~= scope_view(before).push((n@, t@)));
    }
}

/// Looks `n` up in one namespace.
fn find_name(s: &Vec<(String, Tuple)>, n: &String) -> (r: Option<Tuple>)
    ensures
        opt_tuple_view(r) == lookup(scope_view(s@), n@),
{
    let mut i: usize = s.len();
    assert(s@.subrange(0, i as int) =~= s@);
    while i > 0
        invariant
            0 <= i <= s@.len(),
            lookup(scope_view(s@), n@) == lookup(scope_view(s@.subrange(0, i as int)), n@),
        decreases i,
    {
        proof {
            assert(scope_view(s@.subrange(0, i as int)).drop_last() =~= scope_view(
                s@.subrange(0, i - 1),
            ));
        }
        if s[i - 1].0 == *n {
            return Some(s[i - 1].1.deep_clone());
        }
        i -= 1;
    }
    None
}

impl MemoryEnv {
    /// Well-formed: there is always one scope, and the depth fits an `i32`.
    pub closed spec fn wf(&self) -> bool {
        1 <= self.stack@.len() <= i32::MAX
    }

    /// A well-formed environment has at least one scope, and fewer than
    /// `i32::MAX` of them plus one.
    pub proof fn lemma_wf_scopes(&self)
        requires
            self.wf(),
        ensures
            1 <= self@.scopes.len() <= i32::MAX,
    {
    }

    /// An environment with an empty root and one empty scope.
    pub fn new() -> (r: MemoryEnv)
        ensures
            r.wf(),
            r@.root == Seq::<Binding>::empty(),
            r@.scopes == seq![Seq::<Binding>::empty()],
            r@.root_ids == 0,
            r@.local_ids == 0,
    {
        let mut stack: Vec<Vec<(String, Tuple)>> = Vec::new();
        stack.push(Vec::new());
        let r = MemoryEnv { root: Vec::new(), stack, root_ids: 0, local_ids: 0 };
        proof {
            assert(scope_view(r.stack@[0]@) =~= Seq::<Binding>::empty());
            assert(r@.scopes =~= seq![Seq::<Binding>::empty()]);
            assert(r@.root =~= Seq::<Binding>::empty());
        }
        r
    }
}

impl Environment for MemoryEnv {
    open spec fn env(&self) -> EnvView {
        self@
    }

    open spec fn env_wf(&self) -> bool {
        self.wf()
    }

    /// A fresh storage id, from the root sequence or from the local one.
    fn get_next_storage_id(&mut self, in_root: bool) -> (r: Result<u32, CozoError>)
    {
        if in_root {
            if self.root_ids == u32::MAX {
                return Err(CozoError::StorageIdExhausted);
            }
            self.root_ids = self.root_ids + 1;
            Ok(self.root_ids)
        } else {
            if self.local_ids == u32::MAX {
                return Err(CozoError::StorageIdExhausted);
            }
            self.local_ids = self.local_ids + 1;
            Ok(self.local_ids)
        }
    }


    /// Depth of the innermost scope.
    fn get_stack_depth(&self) -> (r: i32)
    {
        -(self.stack.len() as i32)
    }


    /// Enters a new, empty scope.
    fn push_env(&mut self)
    {
        self.stack.push(Vec::new());
        proof {
            assert(scope_view(Seq::<(String, Tuple)>::empty()) =~= Seq::<Binding>::empty());
            assert(self@.scopes =~= old(self)@.scopes.push(Seq::empty()));
        }
    }


    /// Leaves the innermost scope with all its bindings; the outermost scope is kept.
    fn pop_env(&mut self) -> (r: Result<(), CozoError>)
    {
        if self.stack.len() > 1 {
            self.stack.pop();
            proof {
                assert(self@.scopes =~= old(self)@.scopes.drop_last());
            }
        }
        Ok(())
    }


    /// The definition bound to `name`, innermost scope first, then the root.
    fn resolve(&self, name: &str) -> (r: Result<Option<Tuple>, CozoError>)
    {
        let n = name.to_owned();
        let mut i: usize = self.stack.len();
        assert(self@.scopes.subrange(0, i as int) =~= self@.scopes);
        while i > 0
            invariant
                0 <= i <= self.stack@.len(),
                n@ == name@,
                spec_resolve(self@, name@) == resolve_in(
                    self@.scopes.subrange(0, i as int),
                    self@.root,
                    name@,
                ),
            decreases i,
        {
            let found = find_name(&self.stack[i - 1], &n);
            proof {
                assert(self@.scopes.subrange(0, i as int).drop_last() =~= self@.scopes.subrange(
                    0,
                    i - 1,
                ));
            }
            if found.is_some() {
                return Ok(found);
            }
            i -= 1;
        }
        proof {
            assert(self@.scopes.subrange(0, 0) =~= Seq::<Seq<Binding>>::empty());
        }
        Ok(find_name(&self.root, &n))
    }


    /// Removes the binding of `name` from the root or from the innermost scope.
    fn delete_defined(&mut self, name: &str, in_root: bool) -> (r: Result<(), CozoError>)
    {
        let n = name.to_owned();
        if in_root {
            remove_name(&mut self.root, &n);
        } else {
            let ghost scopes = self@.scopes;
            let mut i: usize = self.stack.len();
            assert(scopes.subrange(0, i as int) + scopes.subrange(i as int, scopes.len() as int)
                =~= scopes);
            assert(scopes.subrange(0, i as int) =~= scopes);
            while i > 0
                invariant
                    0 <= i <= self.stack@.len(),
                    !in_root,
                    n@ == name@,
                    self@ == old(self)@,
                    self.wf(),
                    scopes == old(self)@.scopes,
                    delete_in_scopes(scopes, name@) == delete_in_scopes(
                        scopes.subrange(0, i as int),
                        name@,
                    ) + scopes.subrange(i as int, scopes.len() as int),
                decreases i,
            {
                let found = find_name(&self.stack[i - 1], &n);
                let ghost pre = scopes.subrange(0, i as int);
                proof {
                    assert(pre.drop_last() =~= scopes.subrange(0, i - 1));
                    assert(pre.last() == scopes[i - 1]);
                }
                if found.is_some() {
                    proof {
                        assert(scopes[i - 1] == scope_view(self.stack@[i - 1]@));
                        assert(lookup(pre.last(), name@) is Some);
                        assert(delete_in_scopes(pre, name@) == pre.update(
                            i - 1,
                            without(pre.last(), name@),
                        ));
                    }
                    let ghost old_stack = self.stack@;
                    remove_name(&mut self.stack[i - 1], &n);
                    proof {
                        assert forall|j: int| 0 <= j < self.stack@.len() && j != i - 1 implies
                            self.stack@[j] == old_stack[j] by {}
                        assert(scope_view(self.stack@[i - 1]@) == without(scopes[i - 1], name@));
                        assert(self@.scopes =~= pre.update(i - 1, without(pre.last(), name@))
                            + scopes.subrange(i as int, scopes.len() as int));
                        assert(self@.scopes == delete_in_scopes(scopes, name@));
                    }
                    return Ok(());
                }
                proof {
                    assert(scopes.subrange(i - 1, scopes.len() as int) =~= seq![scopes[i - 1]]
                        + scopes.subrange(i as int, scopes.len() as int));
                    assert(delete_in_scopes(scopes.subrange(0, i - 1), name@).push(scopes[i - 1])
                        + scopes.subrange(i as int, scopes.len() as int) =~= delete_in_scopes(
                        scopes.subrange(0, i - 1),
                        name@,
                    ) + scopes.subrange(i - 1, scopes.len() as int));
                }
                i -= 1;
            }
            proof {
                assert(scopes.subrange(0, 0) =~= Seq::<Seq<Binding>>::empty());
                assert(Seq::<Seq<Binding>>::empty() + scopes.subrange(0, scopes.len() as int)
                    =~= scopes);
            }
        }
        Ok(())
    }


    /// Binds `name` to `data` at the root or in the innermost scope.
    fn define_data(&mut self, name: &str, data: Tuple, in_root: bool) -> (r: Result<(), CozoError>)
    {
        let n = name.to_owned();
        if in_root {
            put_name(&mut self.root, n, data);
        } else {
            let mut last = self.stack.pop().unwrap();
            put_name(&mut last, n, data);
            self.stack.push(last);
            proof {
                assert(self@.scopes =~= old(self)@.scopes.update(
                    old(self)@.scopes.len() - 1,
                    put(old(self)@.scopes.last(), name@, data@),
                ));
            }
        }
        Ok(())
    }

}

impl Default for MemoryEnv {
    fn default() -> (r: MemoryEnv)
        ensures
            r.wf(),
            r@.root == Seq::<Binding>::empty(),
            r@.scopes == seq![Seq::<Binding>::empty()],
            r@.root_ids == 0,
            r@.local_ids == 0,
    {
        MemoryEnv::new()
    }
}

} // verus!
