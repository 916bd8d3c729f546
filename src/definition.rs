use vstd::prelude::*;
use crate::env::{spec_define, spec_resolve, EnvView, Environment, MemoryEnv};
use crate::error::{CozoError, ErrV};
use crate::tuple::{DataKind, Prefix, Tuple, TupleV};
use crate::typing::{columns_text, typing_text, Typing};
use crate::value::{lemma_values_view, Value, ValueV};

verus! {

/// One column of a definition: an optional key marker, a name and a type.
#[derive(Debug)]
pub struct ColumnDef {
    pub is_key: bool,
    pub name: String,
    pub typing: Typing,
}

/// The body of a definition, by syntactic kind.
#[allow(inconsistent_fields)]
#[derive(Debug)]
pub enum DefBody {
    /// `node "name" { columns }`
    Node { name: String, cols: Vec<ColumnDef> },
    /// `edge (src)-[name]->(dst) { columns }`; the column list may be absent.
    Edge { src: String, name: String, dst: String, cols: Option<Vec<ColumnDef>> },
    /// `assoc name: src { columns }`
    Assoc { name: String, src: String, cols: Vec<ColumnDef> },
    /// `type name = typing`
    TypeAlias { name: String, typing: Typing },
}

/// A definition with its scope: global (`create`) or local.
#[derive(Debug)]
pub struct Definition {
    pub in_root: bool,
    pub body: DefBody,
}

/// No two columns of the list share a name.
pub open spec fn names_unique(cols: Seq<ColumnDef>) -> bool {
    forall|i: int, j: int|
        0 <= i < j < cols.len() ==> #[trigger] cols[i].name@ != #[trigger] cols[j].name@
}

/// The names of the columns, in order.
pub open spec fn column_names(cols: Seq<ColumnDef>) -> Seq<Seq<char>> {
    cols.map_values(|c: ColumnDef| c.name@)
}

/// The columns that carry (or do not carry) the key marker, as record fields, in order.
pub open spec fn select_cols(cols: Seq<ColumnDef>, key: bool) -> Seq<(String, Typing)>
    decreases cols.len(),
{
    if cols.len() == 0 {
        Seq::empty()
    } else if cols.last().is_key == key {
        select_cols(cols.drop_last(), key).push((cols.last().name, cols.last().typing))
    } else {
        select_cols(cols.drop_last(), key)
    }
}

/// The canonical text of a record shape.
pub open spec fn record_text(fields: Seq<(String, Typing)>) -> Seq<char> {
    "("@ + columns_text(fields) + ")"@
}

/// Column parsing: the key and value record texts, or the duplicate-name error.
pub open spec fn spec_parse_cols(cols: Seq<ColumnDef>) -> Result<(Seq<char>, Seq<char>), ErrV> {
    if names_unique(cols) {
        Ok((record_text(select_cols(cols, true)), record_text(select_cols(cols, false))))
    } else {
        Err(ErrV::DuplicateNames(column_names(cols)))
    }
}

/// The kind, global flag and storage id at the head of a table definition.
pub open spec fn spec_table_id(t: TupleV) -> Result<(DataKind, bool, u64), ErrV> {
    match t.prefix {
        Prefix::Null => Err(ErrV::BadDataFormat),
        Prefix::Data(k) => {
            if k == DataKind::DataTuple || k == DataKind::Value || k == DataKind::TypeAlias {
                Err(ErrV::UnexpectedDataKind(k))
            } else if t.elems.len() >= 2 && t.elems[0] is Bool && t.elems[1] is UInt {
                Ok((k, t.elems[0]->Bool_0, t.elems[1]->UInt_0))
            } else {
                Err(ErrV::BadDataFormat)
            }
        },
    }
}

/// An endpoint of an edge: it resolves, to a node, global when the edge is.
pub open spec fn spec_endpoint(e: EnvView, in_root: bool, n: Seq<char>) -> Result<(bool, u64), ErrV> {
    match spec_resolve(e, n) {
        None => Err(ErrV::UndefinedType(n)),
        Some(t) => match spec_table_id(t) {
            Err(x) => Err(x),
            Ok((k, g, id)) => {
                if in_root && !g {
                    Err(ErrV::LogicError)
                } else if k != DataKind::Node {
                    Err(ErrV::UnexpectedDataKind(k))
                } else {
                    Ok((g, id))
                }
            },
        },
    }
}

/// The body of a node definition.
pub open spec fn spec_node_def(cols: Seq<ColumnDef>) -> Result<TupleV, ErrV> {
    match spec_parse_cols(cols) {
        Err(x) => Err(x),
        Ok((kt, vt)) => Ok(
            TupleV {
                prefix: Prefix::Data(DataKind::Node),
                elems: seq![ValueV::Text(kt), ValueV::Text(vt), ValueV::Null, ValueV::Null],
            },
        ),
    }
}

pub open spec fn opt_cols_view(o: Option<Vec<ColumnDef>>) -> Option<Seq<ColumnDef>> {
    match o {
        Some(v) => Some(v@),
        None => None,
    }
}

/// The body of an edge definition.
pub open spec fn spec_edge_def(
    e: EnvView,
    in_root: bool,
    src: Seq<char>,
    dst: Seq<char>,
    cols: Option<Seq<ColumnDef>>,
) -> Result<TupleV, ErrV> {
    match spec_endpoint(e, in_root, src) {
        Err(x) => Err(x),
        Ok((sg, sid)) => match spec_endpoint(e, in_root, dst) {
            Err(x) => Err(x),
            Ok((dg, did)) => {
                let typings = match cols {
                    Some(c) => spec_parse_cols(c),
                    None => Ok(("()"@, "()"@)),
                };
                match typings {
                    Err(x) => Err(x),
                    Ok((kt, vt)) => Ok(
                        TupleV {
                            prefix: Prefix::Data(DataKind::Edge),
                            elems: seq![
                                ValueV::Bool(sg),
                                ValueV::UInt(sid),
                                ValueV::Bool(dg),
                                ValueV::UInt(did),
                                ValueV::Text(kt),
                                ValueV::Text(vt),
                                ValueV::Null,
                                ValueV::Null,
                            ],
                        },
                    ),
                }
            },
        },
    }
}

/// The body of an association definition.
pub open spec fn spec_assoc_def(
    e: EnvView,
    in_root: bool,
    src: Seq<char>,
    cols: Seq<ColumnDef>,
) -> Result<TupleV, ErrV> {
    match spec_resolve(e, src) {
        None => Err(ErrV::UndefinedType(src)),
        Some(t) => match spec_table_id(t) {
            Err(x) => Err(x),
            Ok((_k, g, id)) => {
                if in_root && !g {
                    Err(ErrV::LogicError)
                } else {
                    match spec_parse_cols(cols) {
                        Err(x) => Err(x),
                        Ok((_kt, vt)) => {
                            if select_cols(cols, true).len() > 0 {
                                Err(ErrV::LogicError)
                            } else {
                                Ok(
                                    TupleV {
                                        prefix: Prefix::Data(DataKind::Associate),
                                        elems: seq![
                                            ValueV::Bool(g),
                                            ValueV::UInt(id),
                                            ValueV::Text(vt),
                                        ],
                                    },
                                )
                            }
                        },
                    }
                }
            },
        },
    }
}

/// The body of a type alias.
pub open spec fn spec_type_def(typing: Typing) -> TupleV {
    TupleV { prefix: Prefix::Data(DataKind::TypeAlias), elems: seq![ValueV::Text(typing_text(typing))] }
}

/// The name a definition binds.
pub open spec fn def_name(body: DefBody) -> Seq<char> {
    match body {
        DefBody::Node { name, .. } => name@,
        DefBody::Edge { name, .. } => name@,
        DefBody::Assoc { name, .. } => name@,
        DefBody::TypeAlias { name, .. } => name@,
    }
}

/// Reading of a definition: whether it needs a storage id, and its body.
pub open spec fn spec_definition(e: EnvView, body: DefBody, in_root: bool) -> Result<
    (bool, TupleV),
    ErrV,
> {
    match body {
        DefBody::Node { cols, .. } => match spec_node_def(cols@) {
            Ok(t) => Ok((true, t)),
            Err(x) => Err(x),
        },
        DefBody::Edge { src, dst, cols, .. } => match spec_edge_def(
            e,
            in_root,
            src@,
            dst@,
            opt_cols_view(cols),
        ) {
            Ok(t) => Ok((true, t)),
            Err(x) => Err(x),
        },
        DefBody::Assoc { src, cols, .. } => match spec_assoc_def(e, in_root, src@, cols@) {
            Ok(t) => Ok((true, t)),
            Err(x) => Err(x),
        },
        DefBody::TypeAlias { typing, .. } => Ok((false, spec_type_def(typing))),
    }
}

/// The stored form of a table definition: scope flag and storage id ahead of the body.
pub open spec fn with_table_id(t: TupleV, in_root: bool, id: u32) -> TupleV {
    TupleV { prefix: t.prefix, elems: seq![ValueV::Bool(in_root), ValueV::UInt(id as u64)] + t.elems }
}

/// The environment after running a definition, or the error it fails with.
pub open spec fn spec_run_definition(e: EnvView, d: Definition) -> Result<EnvView, ErrV> {
    let n = def_name(d.body);
    match spec_definition(e, d.body, d.in_root) {
        Err(x) => Err(x),
        Ok((false, t)) => Ok(spec_define(e, n, t, d.in_root)),
        Ok((true, t)) => {
            let last = if d.in_root {
                e.root_ids
            } else {
                e.local_ids
            };
            if last == u32::MAX {
                Err(ErrV::StorageIdExhausted)
            } else {
                let id = (last + 1) as u32;
                let e2 = if d.in_root {
                    EnvView { root_ids: id, ..e }
                } else {
                    EnvView { local_ids: id, ..e }
                };
                Ok(spec_define(e2, n, with_table_id(t, d.in_root, id), d.in_root))
            }
        },
    }
}

/// Two columns with one name make a node definition fail with `DuplicateNames`,
/// naming every column.
pub proof fn lemma_duplicate_column_fails(cols: Seq<ColumnDef>, i: int, j: int)
    requires
        0 <= i < j < cols.len(),
        cols[i].name@ == cols[j].name@,
    ensures
        spec_node_def(cols) == Err::<TupleV, ErrV>(ErrV::DuplicateNames(column_names(cols))),
{
    assert(!names_unique(cols));
}

/// A global edge whose source resolves to a local node fails with a logic error.
pub proof fn lemma_global_edge_needs_global_source(
    e: EnvView,
    src: Seq<char>,
    dst: Seq<char>,
    cols: Option<Seq<ColumnDef>>,
    id: u64,
)
    requires
        spec_resolve(e, src) is Some,
        spec_table_id(spec_resolve(e, src)->Some_0) == Ok::<(DataKind, bool, u64), ErrV>(
            (DataKind::Node, false, id),
        ),
    ensures
        spec_edge_def(e, true, src, dst, cols) == Err::<TupleV, ErrV>(ErrV::LogicError),
{
}

/// A global edge between global nodes, with columns of distinct names, succeeds,
/// and its body holds the endpoints' storage ids.
pub proof fn lemma_global_edge_between_global_nodes(
    e: EnvView,
    src: Seq<char>,
    dst: Seq<char>,
    cols: Seq<ColumnDef>,
    sid: u64,
    did: u64,
)
    requires
        spec_resolve(e, src) is Some,
        spec_table_id(spec_resolve(e, src)->Some_0) == Ok::<(DataKind, bool, u64), ErrV>(
            (DataKind::Node, true, sid),
        ),
        spec_resolve(e, dst) is Some,
        spec_table_id(spec_resolve(e, dst)->Some_0) == Ok::<(DataKind, bool, u64), ErrV>(
            (DataKind::Node, true, did),
        ),
        names_unique(cols),
    ensures
        spec_edge_def(e, true, src, dst, Some(cols)) is Ok,
        spec_edge_def(e, true, src, dst, Some(cols))->Ok_0.elems[1] == ValueV::UInt(sid),
        spec_edge_def(e, true, src, dst, Some(cols))->Ok_0.elems[3] == ValueV::UInt(did),
{
}

/// The key columns of a list are empty only when no column carries the key marker.
proof fn lemma_key_column_selected(cols: Seq<ColumnDef>, i: int)
    requires
        0 <= i < cols.len(),
        cols[i].is_key,
    ensures
        select_cols(cols, true).len() > 0,
    decreases cols.len(),
{
    if i < cols.len() - 1 {
        lemma_key_column_selected(cols.drop_last(), i);
    }
}

/// An association with a key column fails with a logic error, whatever its source.
pub proof fn lemma_keyed_association_fails(
    e: EnvView,
    in_root: bool,
    src: Seq<char>,
    cols: Seq<ColumnDef>,
    i: int,
)
    requires
        spec_resolve(e, src) is Some,
        spec_table_id(spec_resolve(e, src)->Some_0) is Ok,
        in_root ==> spec_table_id(spec_resolve(e, src)->Some_0)->Ok_0.1,
        names_unique(cols),
        0 <= i < cols.len(),
        cols[i].is_key,
    ensures
        spec_assoc_def(e, in_root, src, cols) == Err::<TupleV, ErrV>(ErrV::LogicError),
{
    lemma_key_column_selected(cols, i);
}

/// Reads the kind, global flag and storage id of a resolved table definition.
pub fn extract_table_id(t: &Tuple) -> (r: Result<(DataKind, bool, u64), CozoError>)
    ensures
        match r {
            Ok(x) => spec_table_id(t@) == Ok::<(DataKind, bool, u64), ErrV>(x),
            Err(x) => spec_table_id(t@) == Err::<(DataKind, bool, u64), ErrV>(x@),
        },
{
    proof {
        lemma_values_view(t.elems@);
    }
    let kind = match t.data_kind() {
        Ok(k) => k,
        Err(x) => return Err(x),
    };
    match kind {
        DataKind::DataTuple | DataKind::Value | DataKind::TypeAlias => {
            return Err(CozoError::UnexpectedDataKind(kind));
        },
        _ => {},
    }
    if t.elems.len() < 2 {
        return Err(CozoError::BadDataFormat);
    }
    let is_global = match &t.elems[0] {
        Value::Bool(b) => *b,
        _ => return Err(CozoError::BadDataFormat),
    };
    let table_id = match &t.elems[1] {
        Value::UInt(u) => *u,
        _ => return Err(CozoError::BadDataFormat),
    };
    Ok((kind, is_global, table_id))
}

/// Whether two columns of the list share a name.
fn has_duplicate_names(cols: &Vec<ColumnDef>) -> (r: bool)
    ensures
        r == !names_unique(cols@),
{
    let mut i: usize = 0;
    while i < cols.len()
        invariant
            0 <= i <= cols@.len(),
            forall|a: int, b: int|
                0 <= a < b < cols@.len() && a < i ==> #[trigger] cols@[a].name@ != #[trigger] cols@[b].name@,
        decreases cols@.len() - i,
    {
        let mut j: usize = i + 1;
        while j < cols.len()
            invariant
                i < cols@.len(),
                i + 1 <= j <= cols@.len(),
                forall|a: int, b: int|
                    0 <= a < b < cols@.len() && a < i ==> #[trigger] cols@[a].name@ != #[trigger] cols@[b].name@,
                forall|b: int| i < b < j ==> cols@[i as int].name@ != #[trigger] cols@[b].name@,
            decreases cols@.len() - j,
        {
            if cols[i].name == cols[j].name {
                return true;
            }
            j += 1;
        }
        i += 1;
    }
    false
}

/// The names of the columns, in order.
fn collect_names(cols: &Vec<ColumnDef>) -> (r: Vec<String>)
    ensures
        r@.map_values(|s: String| s@) == column_names(cols@),
{
    let mut out: Vec<String> = Vec::new();
    let mut i: usize = 0;
    while i < cols.len()
        invariant
            0 <= i <= cols@.len(),
            out@.map_values(|s: String| s@) =~= column_names(cols@.subrange(0, i as int)),
        decreases cols@.len() - i,
    {
        let ghost prev = out@;
        out.push(cols[i].name.clone());
        proof {
            assert(out@.map_values(|s: String| s@) =~= prev.map_values(|s: String| s@).push(
                cols@[i as int].name@,
            ));
            assert(column_names(cols@.subrange(0, i + 1)) =~= column_names(
                cols@.subrange(0, i as int),
            ).push(cols@[i as int].name@));
        }
        i += 1;
    }
    proof {
        assert(cols@.subrange(0, i as int) =~= cols@);
    }
    out
}

/// Splits columns into key columns and value columns, as two record typings.
///
/// Fails with `DuplicateNames`, naming every column, when two columns share a name.
pub fn parse_cols(cols: Vec<ColumnDef>) -> (r: Result<(Typing, Typing), CozoError>)
    ensures
        match r {
            Ok((k, v)) => names_unique(cols@) && k is NamedTuple && k->NamedTuple_0@ == select_cols(
                cols@,
                true,
            ) && v is NamedTuple && v->NamedTuple_0@ == select_cols(cols@, false),
            Err(x) => !names_unique(cols@) && x@ == ErrV::DuplicateNames(column_names(cols@)),
        },
{
    if has_duplicate_names(&cols) {
        return Err(CozoError::DuplicateNames(collect_names(&cols)));
    }
    let ghost orig = cols@;
    let mut rest = cols;
    let mut keys: Vec<(String, Typing)> = Vec::new();
    let mut vals: Vec<(String, Typing)> = Vec::new();
    let ghost mut k: int = 0;
    while rest.len() > 0
        invariant
            0 <= k <= orig.len(),
            rest@ == orig.subrange(k, orig.len() as int),
            keys@ == select_cols(orig.subrange(0, k), true),
            vals@ == select_cols(orig.subrange(0, k), false),
        decreases rest@.len(),
    {
        let c = rest.remove(0);
        proof {
            assert(orig.subrange(0, k + 1).drop_last() =~= orig.subrange(0, k));
            assert(orig.subrange(0, k + 1).last() == c);
            k = k + 1;
            assert(rest@ =~= orig.subrange(k, orig.len() as int));
        }
        if c.is_key {
            keys.push((c.name, c.typing));
        } else {
            vals.push((c.name, c.typing));
        }
    }
    proof {
        assert(orig.subrange(0, k) =~= orig);
    }
    Ok((Typing::NamedTuple(keys), Typing::NamedTuple(vals)))
}

/// Reading definitions into stored tuples, over any environment.
pub trait DefinitionReader: Environment {
    /// Reads a node definition into its name and body.
    fn parse_node_def(&self, name: String, cols: Vec<ColumnDef>, _in_root: bool) -> (r: Result<
        (String, Tuple),
        CozoError,
    >)
        ensures
            match r {
                Ok((n, t)) => n@ == name@ && spec_node_def(cols@) == Ok::<TupleV, ErrV>(t@),
                Err(x) => spec_node_def(cols@) == Err::<TupleV, ErrV>(x@),
            },
    {
        let ghost c = cols@;
        let (keys_typing, vals_typing) = match parse_cols(cols) {
            Ok(p) => p,
            Err(x) => return Err(x),
        };
        let mut tuple = Tuple::with_data_prefix(DataKind::Node);
        tuple.push_str(keys_typing.to_text());
        tuple.push_str(vals_typing.to_text());
        tuple.push_null();
        tuple.push_null();
        proof {
            assert(tuple@.elems =~= spec_node_def(c)->Ok_0.elems);
        }
        Ok((name, tuple))
    }

    /// Resolves an endpoint of an edge to its global flag and storage id.
    fn resolve_endpoint(&self, n: &String, in_root: bool) -> (r: Result<(bool, u64), CozoError>)
        requires
            self.env_wf(),
        ensures
            match r {
                Ok(x) => spec_endpoint(self.env(), in_root, n@) == Ok::<(bool, u64), ErrV>(x),
                Err(x) => spec_endpoint(self.env(), in_root, n@) == Err::<(bool, u64), ErrV>(x@),
            },
    {
        let found = match self.resolve(n.as_str()) {
            Ok(f) => f,
            Err(x) => return Err(x),
        };
        let tbl = match found {
            Some(t) => t,
            None => return Err(CozoError::UndefinedType(n.clone())),
        };
        let (kind, global, id) = match extract_table_id(&tbl) {
            Ok(x) => x,
            Err(x) => return Err(x),
        };
        if in_root && !global {
            return Err(CozoError::LogicError(String::from_str("Cannot have global edge with local nodes")));
        }
        if kind != DataKind::Node {
            return Err(CozoError::UnexpectedDataKind(kind));
        }
        Ok((global, id))
    }

    /// Reads an edge definition into its name and body.
    ///
    /// Both endpoints must resolve to nodes; a global edge needs global endpoints.
    fn parse_edge_def(
        &self,
        src: String,
        name: String,
        dst: String,
        cols: Option<Vec<ColumnDef>>,
        in_root: bool,
    ) -> (r: Result<(String, Tuple), CozoError>)
        requires
            self.env_wf(),
        ensures
            match r {
                Ok((n, t)) => n@ == name@ && spec_edge_def(
                    self.env(),
                    in_root,
                    src@,
                    dst@,
                    opt_cols_view(cols),
                ) == Ok::<TupleV, ErrV>(t@),
                Err(x) => spec_edge_def(self.env(), in_root, src@, dst@, opt_cols_view(cols)) == Err::<
                    TupleV,
                    ErrV,
                >(x@),
            },
    {
        let (src_global, src_id) = match self.resolve_endpoint(&src, in_root) {
            Ok(x) => x,
            Err(x) => return Err(x),
        };
        let (dst_global, dst_id) = match self.resolve_endpoint(&dst, in_root) {
            Ok(x) => x,
            Err(x) => return Err(x),
        };
        let ghost c = opt_cols_view(cols);
        let (keys_text, vals_text) = match cols {
            Some(v) => match parse_cols(v) {
                Ok((k, t)) => (k.to_text(), t.to_text()),
                Err(x) => return Err(x),
            },
            None => {
                let empty: Vec<(String, Typing)> = Vec::new();
                let k = Typing::NamedTuple(empty).to_text();
                let empty2: Vec<(String, Typing)> = Vec::new();
                let t = Typing::NamedTuple(empty2).to_text();
                (k, t)
            },
        };
        let mut tuple = Tuple::with_data_prefix(DataKind::Edge);
        tuple.push_bool(src_global);
        tuple.push_uint(src_id);
        tuple.push_bool(dst_global);
        tuple.push_uint(dst_id);
        tuple.push_str(keys_text);
        tuple.push_str(vals_text);
        tuple.push_null();
        tuple.push_null();
        proof {
            assert(columns_text(Seq::<(String, Typing)>::empty()) == Seq::<char>::empty());
            assert("("@ + Seq::<char>::empty() + ")"@ =~= "()"@) by {
                reveal_strlit("(");
                reveal_strlit(")");
                reveal_strlit("()");
            }
            assert(tuple@.elems =~= spec_edge_def(self.env(), in_root, src@, dst@, c)->Ok_0.elems);
        }
        Ok((name, tuple))
    }

    /// Reads an association definition into its name and body.
    ///
    /// The source must be a table; an association carries no key columns.
    fn parse_assoc_def(&self, name: String, src: String, cols: Vec<ColumnDef>, in_root: bool) -> (r:
        Result<(String, Tuple), CozoError>)
        requires
            self.env_wf(),
        ensures
            match r {
                Ok((n, t)) => n@ == name@ && spec_assoc_def(self.env(), in_root, src@, cols@) == Ok::<
                    TupleV,
                    ErrV,
                >(t@),
                Err(x) => spec_assoc_def(self.env(), in_root, src@, cols@) == Err::<TupleV, ErrV>(x@),
            },
    {
        let found = match self.resolve(src.as_str()) {
            Ok(f) => f,
            Err(x) => return Err(x),
        };
        let tbl = match found {
            Some(t) => t,
            None => return Err(CozoError::UndefinedType(src)),
        };
        let (_kind, src_global, src_id) = match extract_table_id(&tbl) {
            Ok(x) => x,
            Err(x) => return Err(x),
        };
        if in_root && !src_global {
            return Err(CozoError::LogicError(String::from_str("Cannot have global edge with local nodes")));
        }
        let ghost c = cols@;
        let (keys_typing, vals_typing) = match parse_cols(cols) {
            Ok(p) => p,
            Err(x) => return Err(x),
        };
        let has_keys = match &keys_typing {
            Typing::NamedTuple(k) => k.len() > 0,
            _ => true,
        };
        if has_keys {
            return Err(CozoError::LogicError(String::from_str("Cannot have keys in assoc")));
        }
        let mut tuple = Tuple::with_data_prefix(DataKind::Associate);
        tuple.push_bool(src_global);
        tuple.push_uint(src_id);
        tuple.push_str(vals_typing.to_text());
        proof {
            assert(tuple@.elems =~= spec_assoc_def(self.env(), in_root, src@, c)->Ok_0.elems);
        }
        Ok((name, tuple))
    }

    /// Reads a type alias into its name and body.
    fn parse_type_def(&self, name: String, typing: Typing, _in_root: bool) -> (r: Result<
        (String, Tuple),
        CozoError,
    >)
        ensures
            r is Ok,
            r->Ok_0.0@ == name@,
            r->Ok_0.1@ == spec_type_def(typing),
    {
        let mut data = Tuple::with_data_prefix(DataKind::TypeAlias);
        data.push_str(typing.to_text());
        proof {
            assert(data@.elems =~= spec_type_def(typing).elems);
        }
        Ok((name, data))
    }

    /// Reads a definition: whether it needs a storage id, its name and its body.
    fn parse_definition(&self, body: DefBody, in_root: bool) -> (r: Result<
        (bool, (String, Tuple)),
        CozoError,
    >)
        requires
            self.env_wf(),
        ensures
            match r {
                Ok((need, (n, t))) => n@ == def_name(body) && spec_definition(self.env(), body, in_root)
                    == Ok::<(bool, TupleV), ErrV>((need, t@)),
                Err(x) => spec_definition(self.env(), body, in_root) == Err::<(bool, TupleV), ErrV>(x@),
            },
    {
        match body {
            DefBody::Node { name, cols } => match self.parse_node_def(name, cols, in_root) {
                Ok(p) => Ok((true, p)),
                Err(x) => Err(x),
            },
            DefBody::Edge { src, name, dst, cols } => match self.parse_edge_def(
                src,
                name,
                dst,
                cols,
                in_root,
            ) {
                Ok(p) => Ok((true, p)),
                Err(x) => Err(x),
            },
            DefBody::Assoc { name, src, cols } => match self.parse_assoc_def(
                name,
                src,
                cols,
                in_root,
            ) {
                Ok(p) => Ok((true, p)),
                Err(x) => Err(x),
            },
            DefBody::TypeAlias { name, typing } => match self.parse_type_def(name, typing, in_root) {
                Ok(p) => Ok((false, p)),
                Err(x) => Err(x),
            },
        }
    }

    /// Runs a definition: reads it, gives a table a storage id from the
    /// sequence of its scope, and binds the result under its name.
    fn run_definition(&mut self, def: Definition) -> (r: Result<(), CozoError>)
        requires
            old(self).env_wf(),
        ensures
            final(self).env_wf(),
            match r {
                Ok(()) => spec_run_definition(old(self).env(), def) == Ok::<EnvView, ErrV>(final(self).env()),
                Err(x) => spec_run_definition(old(self).env(), def) == Err::<EnvView, ErrV>(x@)
                    && final(self).env() == old(self).env(),
            },
    {
        let in_root = def.in_root;
        let (need_id, (name, tuple)) = match self.parse_definition(def.body, in_root) {
            Ok(x) => x,
            Err(x) => return Err(x),
        };
        if need_id {
            let id = match self.get_next_storage_id(in_root) {
                Ok(id) => id,
                Err(x) => return Err(x),
            };
            let mut stored = Tuple::with_prefix(tuple.get_prefix());
            stored.push_bool(in_root);
            stored.push_uint(id as u64);
            stored.concat_data(&tuple);
            proof {
                assert(stored@.elems =~= with_table_id(tuple@, in_root, id).elems);
            }
            self.define_data(name.as_str(), stored, in_root)
        } else {
            self.define_data(name.as_str(), tuple, in_root)
        }
    }
}

impl DefinitionReader for MemoryEnv {
}

} // verus!
