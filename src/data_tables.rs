//! The networked class schema: the schema tables, the server classes bound to
//! them, and the flattening of each class's table graph into its ordered list
//! of replicated properties.
use vstd::prelude::*;
use vstd::string::StringExecFns;
use crate::cursor::Cursor;
use crate::error::DemoError;
use crate::message::{framed_at, parse_message, Message, MessageModel};
use crate::send_table::SendTableModel;
use crate::cursor::bits_le;
use crate::send_table::{SendProp, SendTable};

verus! {

/// Unsigned integer data.
pub const FLAG_UNSIGNED: u32 = 0x1;
/// A float or vector treated as a world coordinate.
pub const FLAG_COORD: u32 = 0x2;
/// A float taken as is, not scaled into its range.
pub const FLAG_NO_SCALE: u32 = 0x4;
/// A float whose high value is limited to the range minus one unit.
pub const FLAG_ROUND_DOWN: u32 = 0x8;
/// A float whose low value is limited to the range minus one unit.
pub const FLAG_ROUND_UP: u32 = 0x10;
/// A vector treated as a normal.
pub const FLAG_NORMAL: u32 = 0x20;
/// The property names another property to be excluded.
pub const FLAG_EXCLUDE: u32 = 0x40;
/// Vectors in XYZ/exponent encoding.
pub const FLAG_XYZE: u32 = 0x80;
/// The property is the element template of an array, not listed on its own.
pub const FLAG_INSIDE_ARRAY: u32 = 0x100;
/// A table property whose proxy always sends to every client.
pub const FLAG_PROXY_ALWAYS_YES: u32 = 0x200;
/// The property is an element of a vector.
pub const FLAG_IS_A_VECTOR_ELEM: u32 = 0x400;
/// A table property at offset 0 that does not change the pointer.
pub const FLAG_COLLAPSIBLE: u32 = 0x800;
/// A coordinate with multiplayer handling.
pub const FLAG_COORD_MP: u32 = 0x1000;
/// A multiplayer coordinate with a three-bit fraction.
pub const FLAG_COORD_MP_LOW_PRECISION: u32 = 0x2000;
/// A multiplayer coordinate rounded to integers.
pub const FLAG_COORD_MP_INTEGRAL: u32 = 0x4000;
/// A non-negative cell coordinate.
pub const FLAG_CELL_COORD: u32 = 0x8000;
/// A cell coordinate with a three-bit fraction.
pub const FLAG_CELL_COORD_LOW_PRECISION: u32 = 0x10000;
/// A cell coordinate rounded to integers.
pub const FLAG_CELL_COORD_INTEGRAL: u32 = 0x20000;
/// An often-changed property, moved to the head of its table.
pub const FLAG_CHANGES_OFTEN: u32 = 0x40000;
/// A property sent as a variable-length integer.
pub const FLAG_VARINT: u32 = 0x80000;

/// The union of all known flag bits.
pub const ALL_FLAGS: u32 = 0xF_FFFF;

/// Whether `f` is one of the twenty named flags.
pub open spec fn is_flag(f: u32) -> bool {
    f == FLAG_UNSIGNED || f == FLAG_COORD || f == FLAG_NO_SCALE || f == FLAG_ROUND_DOWN
        || f == FLAG_ROUND_UP || f == FLAG_NORMAL || f == FLAG_EXCLUDE || f == FLAG_XYZE
        || f == FLAG_INSIDE_ARRAY || f == FLAG_PROXY_ALWAYS_YES || f == FLAG_IS_A_VECTOR_ELEM
        || f == FLAG_COLLAPSIBLE || f == FLAG_COORD_MP || f == FLAG_COORD_MP_LOW_PRECISION
        || f == FLAG_COORD_MP_INTEGRAL || f == FLAG_CELL_COORD || f == FLAG_CELL_COORD_LOW_PRECISION
        || f == FLAG_CELL_COORD_INTEGRAL || f == FLAG_CHANGES_OFTEN || f == FLAG_VARINT
}

/// Whether the single-bit flag `f` is set in `bits`.
pub open spec fn has_flag(bits: u32, f: u32) -> bool {
    (bits / f) % 2 == 1
}

/// A property's flag word is valid when it sets no bit outside the known ones.
pub open spec fn flags_valid(flags: i32) -> bool {
    0 <= flags <= ALL_FLAGS
}

/// A validated set of property flags.
pub struct PropFlags {
    bits: u32,
}

impl PropFlags {
    pub closed spec fn view_bits(&self) -> u32 {
        self.bits
    }

    /// The flags of `bits`, or `None` if it sets an unknown bit.
    pub fn from_bits(bits: u32) -> (r: Option<PropFlags>)
        ensures
            bits <= ALL_FLAGS ==> (r matches Some(f) && f.view_bits() == bits),
            bits > ALL_FLAGS ==> r.is_none(),
    {
        if bits <= ALL_FLAGS {
            Some(PropFlags { bits })
        } else {
            None
        }
    }

    /// The raw bits.
    pub fn bits(&self) -> (r: u32)
        ensures
            r == self.view_bits(),
    {
        self.bits
    }

    /// Whether the named flag `f` is set.
    pub fn contains(&self, f: u32) -> (r: bool)
        requires
            is_flag(f),
        ensures
            r == has_flag(self.view_bits(), f),
    {
        (self.bits / f) % 2 == 1
    }
}

/// The closed set of property type tags.
#[derive(Debug, Clone, Copy, PartialEq, Eq, Structural)]
pub enum PropTypes {
    Int,
    Float,
    Vector,
    /// A vector of which only X and Y are sent.
    VectorXY,
    String,
    /// An array of a base type; its element template is the property before it.
    Array,
    /// An embedded schema table.
    DataTable,
    Int64,
    /// The count of the types above, which the protocol also lists.
    NUMSendPropTypes,
}

/// The type that tag `i` stands for, if any.
pub open spec fn prop_type_of(i: i32) -> Option<PropTypes> {
    if i == 0 {
        Some(PropTypes::Int)
    } else if i == 1 {
        Some(PropTypes::Float)
    } else if i == 2 {
        Some(PropTypes::Vector)
    } else if i == 3 {
        Some(PropTypes::VectorXY)
    } else if i == 4 {
        Some(PropTypes::String)
    } else if i == 5 {
        Some(PropTypes::Array)
    } else if i == 6 {
        Some(PropTypes::DataTable)
    } else if i == 7 {
        Some(PropTypes::Int64)
    } else if i == 8 {
        Some(PropTypes::NUMSendPropTypes)
    } else {
        None
    }
}

/// The type tag of table-typed properties.
pub const DATA_TABLE_TAG: i32 = 6;

impl PropTypes {
    /// The type that tag `i` stands for; any other tag is an error.
    pub fn from_i32(i: i32) -> (r: Result<PropTypes, DemoError>)
        ensures
            match prop_type_of(i) {
                Some(t) => r == Ok::<PropTypes, DemoError>(t),
                None => r == Err::<PropTypes, DemoError>(DemoError::BadPropType),
            },
    {
        match i {
            0 => Ok(PropTypes::Int),
            1 => Ok(PropTypes::Float),
            2 => Ok(PropTypes::Vector),
            3 => Ok(PropTypes::VectorXY),
            4 => Ok(PropTypes::String),
            5 => Ok(PropTypes::Array),
            6 => Ok(PropTypes::DataTable),
            7 => Ok(PropTypes::Int64),
            8 => Ok(PropTypes::NUMSendPropTypes),
            _ => Err(DemoError::BadPropType),
        }
    }
}

/// The index of the first table named `name`, from index `i` on.
pub open spec fn lookup_from(tables: Seq<SendTable>, name: Seq<char>, i: int) -> Option<int>
    decreases tables.len() - i,
{
    if i < 0 || i >= tables.len() {
        None
    } else if tables[i].net_table_name@ == name {
        Some(i)
    } else {
        lookup_from(tables, name, i + 1)
    }
}

/// The index of the first table named `name`.
pub open spec fn lookup(tables: Seq<SendTable>, name: Seq<char>) -> Option<int> {
    lookup_from(tables, name, 0)
}

/// The exclude directives found in `table` from property `i` on, and, depth
/// first, in every table that those properties embed. `depth` bounds the
/// nesting: a schema that nests deeper than it is taken to be cyclic.
pub open spec fn excludes_from(tables: Seq<SendTable>, table: SendTable, i: int, depth: nat) -> Result<
    Seq<SendProp>,
    DemoError,
>
    decreases depth, table.props@.len() - i,
{
    if i < 0 || i >= table.props@.len() {
        Ok(Seq::empty())
    } else {
        let p = table.props@[i];
        if !flags_valid(p.flags) {
            Err(DemoError::BadPropFlags)
        } else {
            let own = if has_flag(p.flags as u32, FLAG_EXCLUDE) {
                seq![p]
            } else {
                Seq::empty()
            };
            let inner = if p.prop_type == DATA_TABLE_TAG {
                match lookup(tables, p.dt_name@) {
                    None => Err(DemoError::MissingTable),
                    Some(j) => if depth == 0 {
                        Err(DemoError::CyclicSchema)
                    } else {
                        excludes_from(tables, tables[j], 0, (depth - 1) as nat)
                    },
                }
            } else {
                Ok(Seq::empty())
            };
            match inner {
                Err(e) => Err(e),
                Ok(sub) => match excludes_from(tables, table, i + 1, depth) {
                    Err(e) => Err(e),
                    Ok(rest) => Ok(own + sub + rest),
                },
            }
        }
    }
}

/// Whether `p` of `table` is removed by one of the exclude directives: one
/// that names this table and this property.
pub open spec fn is_excluded(table: SendTable, p: SendProp, excludes: Seq<SendProp>) -> bool {
    exists|k: int|
        0 <= k < excludes.len() && (#[trigger] excludes[k]).dt_name@ == table.net_table_name@
            && excludes[k].var_name@ == p.var_name@
}

/// Whether a property is left out of the flattened lists on its own account.
pub open spec fn is_skipped(table: SendTable, p: SendProp, excludes: Seq<SendProp>) -> bool {
    has_flag(p.flags as u32, FLAG_INSIDE_ARRAY) || has_flag(p.flags as u32, FLAG_EXCLUDE)
        || is_excluded(table, p, excludes)
}

/// The dotted path of a property named `name` under the prefix `path`: the
/// name `baseclass` adds nothing, and a dot joins two non-empty parts.
pub open spec fn join_path(path: Seq<char>, name: Seq<char>) -> Seq<char> {
    let own = if name == "baseclass"@ {
        Seq::empty()
    } else {
        name
    };
    if own.len() == 0 {
        path
    } else if path.len() == 0 {
        own
    } else {
        path + "."@ + own
    }
}

/// A flattened property: a raw descriptor and its dotted path.
pub struct Prop {
    pub inner: SendProp,
    pub path: String,
}

impl View for Prop {
    type V = (SendProp, Seq<char>);

    open spec fn view(&self) -> (SendProp, Seq<char>) {
        (self.inner, self.path@)
    }
}

impl Prop {
    pub fn new(inner: SendProp, path: String) -> (r: Prop)
        ensures
            r.inner == inner,
            r.path == path,
    {
        Prop { inner, path }
    }
}

/// The views of a list of flattened properties.
pub open spec fn prop_views(v: Seq<Prop>) -> Seq<(SendProp, Seq<char>)> {
    v.map_values(|p: Prop| p@)
}

/// The flattened properties, and the array element templates, that `table`
/// contributes from property `i` on under the prefix `path`; embedded tables
/// are inlined depth first in declaration order.
pub open spec fn flatten_from(
    tables: Seq<SendTable>,
    table: SendTable,
    i: int,
    excludes: Seq<SendProp>,
    path: Seq<char>,
    depth: nat,
) -> Result<(Seq<(SendProp, Seq<char>)>, Seq<(SendProp, Seq<char>)>), DemoError>
    decreases depth, table.props@.len() - i,
{
    if i < 0 || i >= table.props@.len() {
        Ok((Seq::empty(), Seq::empty()))
    } else {
        let p = table.props@[i];
        if !flags_valid(p.flags) {
            Err(DemoError::BadPropFlags)
        } else if is_skipped(table, p, excludes) {
            flatten_from(tables, table, i + 1, excludes, path, depth)
        } else {
            let pp = join_path(path, p.var_name@);
            let head: Result<(Seq<(SendProp, Seq<char>)>, Seq<(SendProp, Seq<char>)>), DemoError> =
                match prop_type_of(p.prop_type) {
                None => Err(DemoError::BadPropType),
                Some(PropTypes::Array) => if i == 0 {
                    Err(DemoError::MissingArrayElement)
                } else {
                    Ok((seq![(p, pp)], seq![(table.props@[i - 1], pp)]))
                },
                Some(PropTypes::DataTable) => match lookup(tables, p.dt_name@) {
                    None => Err(DemoError::MissingTable),
                    Some(j) => if depth == 0 {
                        Err(DemoError::CyclicSchema)
                    } else {
                        flatten_from(tables, tables[j], 0, excludes, pp, (depth - 1) as nat)
                    },
                },
                Some(_) => Ok((seq![(p, pp)], Seq::empty())),
            };
            match head {
                Err(e) => Err(e),
                Ok((a, b)) => match flatten_from(tables, table, i + 1, excludes, path, depth) {
                    Err(e) => Err(e),
                    Ok((ra, rb)) => Ok((a + ra, b + rb)),
                },
            }
        }
    }
}

/// The index of the first table named `name`.
pub fn find_by_name(all_tables: &Vec<SendTable>, name: &String) -> (r: Option<usize>)
    ensures
        r matches Some(i) ==> i < all_tables@.len() && lookup(all_tables@, name@) == Some(i as int),
        r.is_none() ==> lookup(all_tables@, name@).is_none(),
{
    let mut i: usize = 0;
    while i < all_tables.len()
        invariant
            i <= all_tables@.len(),
            lookup(all_tables@, name@) == lookup_from(all_tables@, name@, i as int),
        decreases all_tables@.len() - i,
    {
        if all_tables[i].net_table_name == *name {
            return Some(i);
        }
        i = i + 1;
    }
    None
}

/// Whether one of `excludes` names `prop` of `send_table`.
pub fn is_prop_excluded(send_table: &SendTable, prop: &SendProp, excludes: &Vec<SendProp>) -> (r:
    bool)
    ensures
        r == is_excluded(*send_table, *prop, excludes@),
{
    let mut k: usize = 0;
    while k < excludes.len()
        invariant
            k <= excludes@.len(),
            forall|m: int|
                0 <= m < k ==> !((#[trigger] excludes@[m]).dt_name@ == send_table.net_table_name@
                    && excludes@[m].var_name@ == prop.var_name@),
        decreases excludes@.len() - k,
    {
        let e = &excludes[k];
        if e.dt_name == send_table.net_table_name && e.var_name == prop.var_name {
            return true;
        }
        k = k + 1;
    }
    false
}

/// The dotted path of a property named `name` under `path`.
pub fn prop_path(path: &String, name: &String) -> (r: String)
    ensures
        r@ == join_path(path@, name@),
{
    let base = String::from_str("baseclass");
    if *name == base || name.as_str().is_empty() {
        path.clone()
    } else if path.as_str().is_empty() {
        name.clone()
    } else {
        let mut p = path.clone();
        p.append(".");
        p.append(name.as_str());
        p
    }
}

/// Whether `flags` has the named flag `f`, for a valid flag word.
fn prop_has_flag(flags: i32, f: u32) -> (r: bool)
    requires
        flags_valid(flags),
        is_flag(f),
    ensures
        r == has_flag(flags as u32, f),
{
    let fl = PropFlags::from_bits(flags as u32);
    match fl {
        Some(fl) => fl.contains(f),
        None => false,
    }
}

/// The nesting allowed below a table: one level for each known table, which
/// any schema without cycles stays within.
pub open spec fn depth_for(tables: Seq<SendTable>) -> nat {
    tables.len()
}

/// Appends a copy of each of `src` to `dst`.
fn append_props(dst: &mut Vec<SendProp>, src: &Vec<SendProp>)
    ensures
        final(dst)@ == old(dst)@ + src@,
{
    let ghost start = dst@;
    let mut k: usize = 0;
    while k < src.len()
        invariant
            k <= src@.len(),
            dst@ == start + src@.take(k as int),
        decreases src@.len() - k,
    {
        dst.push(src[k].duplicate());
        k = k + 1;
        assert(dst@ =~= start + src@.take(k as int));
    }
    assert(src@.take(k as int) =~= src@);
}

impl DataTable {
    /// The exclude directives of `send_table` and, depth first, of every
    /// table it embeds, nesting at most `depth` levels.
    pub fn gather_excludes(send_table: &SendTable, all_tables: &Vec<SendTable>, depth: usize) -> (r:
        Result<Vec<SendProp>, DemoError>)
        ensures
            match excludes_from(all_tables@, *send_table, 0, depth as nat) {
                Ok(s) => (r matches Ok(v) && v@ == s),
                Err(e) => r == Err::<Vec<SendProp>, DemoError>(e),
            },
        decreases depth,
    {
        let mut excludes: Vec<SendProp> = Vec::new();
        let mut i: usize = 0;
        while i < send_table.props.len()
            invariant
                i <= send_table.props@.len(),
                match excludes_from(all_tables@, *send_table, i as int, depth as nat) {
                    Ok(rest) => excludes_from(all_tables@, *send_table, 0, depth as nat) == Ok::<
                        Seq<SendProp>,
                        DemoError,
                    >(excludes@ + rest),
                    Err(e) => excludes_from(all_tables@, *send_table, 0, depth as nat) == Err::<
                        Seq<SendProp>,
                        DemoError,
                    >(e),
                },
            decreases send_table.props@.len() - i,
        {
            let prop = &send_table.props[i];
            if prop.flags < 0 || prop.flags > ALL_FLAGS as i32 {
                return Err(DemoError::BadPropFlags);
            }
            let ghost before = excludes@;
            let ghost p = send_table.props@[i as int];
            if prop_has_flag(prop.flags, FLAG_EXCLUDE) {
                excludes.push(prop.duplicate());
            }
            let ghost own = excludes@.skip(before.len() as int);
            assert(excludes@ =~= before + own);
            assert(own =~= if has_flag(p.flags as u32, FLAG_EXCLUDE) {
                seq![p]
            } else {
                Seq::empty()
            });
            let ghost ii = i as int;
            let ghost mut sub: Seq<SendProp> = Seq::empty();
            if prop.prop_type == DATA_TABLE_TAG {
                match find_by_name(all_tables, &prop.dt_name) {
                    None => {
                        return Err(DemoError::MissingTable);
                    },
                    Some(j) => {
                        if depth == 0 {
                            return Err(DemoError::CyclicSchema);
                        }
                        let ghost spec_inner = excludes_from(
                            all_tables@,
                            all_tables@[j as int],
                            0,
                            (depth - 1) as nat,
                        );
                        let inner = match Self::gather_excludes(&all_tables[j], all_tables, depth - 1) {
                            Ok(v) => v,
                            Err(e) => {
                                assert(spec_inner == Err::<Seq<SendProp>, DemoError>(e));
                                assert(excludes_from(all_tables@, *send_table, ii, depth as nat)
                                    == Err::<Seq<SendProp>, DemoError>(e));
                                return Err(e);
                            },
                        };
                        proof {
                            sub = inner@;
                        }
                        assert(spec_inner == Ok::<Seq<SendProp>, DemoError>(sub));
                        append_props(&mut excludes, &inner);
                    },
                }
            }
            assert(excludes@ =~= before + own + sub);
            i = i + 1;
            proof {
                match excludes_from(all_tables@, *send_table, ii + 1, depth as nat) {
                    Ok(rest) => {
                        assert(excludes_from(all_tables@, *send_table, ii, depth as nat) == Ok::<
                            Seq<SendProp>,
                            DemoError,
                        >(own + sub + rest));
                        assert(before + (own + sub + rest) =~= excludes@ + rest);
                    },
                    Err(e) => {},
                }
            }
        }
        assert(excludes@ + Seq::<SendProp>::empty() =~= excludes@);
        Ok(excludes)
    }
}

/// The networked class schema: the schema tables and the server classes bound
/// to them, each with its flattened properties.
pub struct DataTable {
    pub data_tables: Vec<SendTable>,
    pub server_classes: Vec<ServerClass>,
    /// The number of bits a class id takes on the wire.
    pub service_class_bits: u8,
}

/// A networked class bound to one schema table.
pub struct ServerClass {
    pub class_id: i16,
    pub name: String,
    /// The name of the class's own schema table.
    pub owning_name: String,
    pub props: Vec<Prop>,
    pub array_props: Vec<Prop>,
}

/// Moves the flattened properties of `src` to the end of `dst`.
fn append_flat(dst: &mut Vec<Prop>, src: Vec<Prop>)
    ensures
        prop_views(final(dst)@) == prop_views(old(dst)@) + prop_views(src@),
{
    let mut src = src;
    let ghost start = dst@;
    let ghost whole = src@;
    dst.append(&mut src);
    assert(prop_views(start + whole) =~= prop_views(start) + prop_views(whole));
}

impl ServerClass {
    /// The flattened properties and array element templates of `send_table`
    /// under the prefix `path`, nesting at most `depth` levels into embedded
    /// tables.
    pub fn gather_props(
        send_table: &SendTable,
        all_tables: &Vec<SendTable>,
        excludes: &Vec<SendProp>,
        path: String,
        depth: usize,
    ) -> (r: Result<(Vec<Prop>, Vec<Prop>), DemoError>)
        ensures
            match flatten_from(all_tables@, *send_table, 0, excludes@, path@, depth as nat) {
                Ok((a, b)) => (r matches Ok((x, y)) && prop_views(x@) == a && prop_views(y@) == b),
                Err(e) => (r matches Err(f) && f == e),
            },
        decreases depth,
    {
        let ghost tables = all_tables@;
        let ghost table = *send_table;
        let mut store: Vec<Prop> = Vec::new();
        let mut arr_store: Vec<Prop> = Vec::new();
        let mut i: usize = 0;
        while i < send_table.props.len()
            invariant
                i <= send_table.props@.len(),
                tables == all_tables@,
                table == *send_table,
                match flatten_from(tables, table, i as int, excludes@, path@, depth as nat) {
                    Ok((ra, rb)) => flatten_from(tables, table, 0, excludes@, path@, depth as nat)
                        == Ok::<(Seq<(SendProp, Seq<char>)>, Seq<(SendProp, Seq<char>)>), DemoError>(
                        (prop_views(store@) + ra, prop_views(arr_store@) + rb),
                    ),
                    Err(e) => flatten_from(tables, table, 0, excludes@, path@, depth as nat) == Err::<
                        (Seq<(SendProp, Seq<char>)>, Seq<(SendProp, Seq<char>)>),
                        DemoError,
                    >(e),
                },
            decreases send_table.props@.len() - i,
        {
            let prop = &send_table.props[i];
            let ghost ii = i as int;
            let ghost p = send_table.props@[ii];
            if prop.flags < 0 || prop.flags > ALL_FLAGS as i32 {
                return Err(DemoError::BadPropFlags);
            }
            if prop_has_flag(prop.flags, FLAG_INSIDE_ARRAY) || prop_has_flag(prop.flags, FLAG_EXCLUDE)
                || is_prop_excluded(send_table, prop, excludes) {
                i = i + 1;
                continue;
            }
            let prop_path = prop_path(&path, &prop.var_name);
            let ghost pp = prop_path@;
            let ghost s0 = prop_views(store@);
            let ghost a0 = prop_views(arr_store@);
            let ghost mut a: Seq<(SendProp, Seq<char>)> = Seq::empty();
            let ghost mut b: Seq<(SendProp, Seq<char>)> = Seq::empty();
            let ty = match PropTypes::from_i32(prop.prop_type) {
                Ok(t) => t,
                Err(e) => {
                    return Err(e);
                },
            };
            match ty {
                PropTypes::Array => {
                    if i == 0 {
                        return Err(DemoError::MissingArrayElement);
                    }
                    arr_store.push(Prop::new(send_table.props[i - 1].duplicate(), prop_path.clone()));
                    store.push(Prop::new(prop.duplicate(), prop_path));
                    proof {
                        a = seq![(p, pp)];
                        b = seq![(table.props@[ii - 1], pp)];
                    }
                },
                PropTypes::DataTable => {
                    let j = match find_by_name(all_tables, &prop.dt_name) {
                        Some(j) => j,
                        None => {
                            return Err(DemoError::MissingTable);
                        },
                    };
                    if depth == 0 {
                        return Err(DemoError::CyclicSchema);
                    }
                    let ghost spec_inner = flatten_from(
                        tables,
                        tables[j as int],
                        0,
                        excludes@,
                        pp,
                        (depth - 1) as nat,
                    );
                    let (new_store, new_arr_store) = match Self::gather_props(
                        &all_tables[j],
                        all_tables,
                        excludes,
                        prop_path,
                        depth - 1,
                    ) {
                        Ok(v) => v,
                        Err(e) => {
                            assert(spec_inner matches Err(f) && f == e);
                            assert(flatten_from(tables, table, ii, excludes@, path@, depth as nat)
                                matches Err(f) && f == e);
                            return Err(e);
                        },
                    };
                    proof {
                        a = prop_views(new_store@);
                        b = prop_views(new_arr_store@);
                    }
                    append_flat(&mut store, new_store);
                    append_flat(&mut arr_store, new_arr_store);
                },
                _ => {
                    store.push(Prop::new(prop.duplicate(), prop_path));
                    proof {
                        a = seq![(p, pp)];
                    }
                },
            }
            assert(prop_views(store@) =~= s0 + a);
            assert(prop_views(arr_store@) =~= a0 + b);
            i = i + 1;
            proof {
                match flatten_from(tables, table, ii + 1, excludes@, path@, depth as nat) {
                    Ok((ra, rb)) => {
                        assert(flatten_from(tables, table, ii, excludes@, path@, depth as nat) == Ok::<
                            (Seq<(SendProp, Seq<char>)>, Seq<(SendProp, Seq<char>)>),
                            DemoError,
                        >((a + ra, b + rb)));
                        assert(s0 + (a + ra) =~= prop_views(store@) + ra);
                        assert(a0 + (b + rb) =~= prop_views(arr_store@) + rb);
                    },
                    Err(e) => {},
                }
            }
        }
        assert(prop_views(store@) + Seq::empty() =~= prop_views(store@));
        assert(prop_views(arr_store@) + Seq::empty() =~= prop_views(arr_store@));
        Ok((store, arr_store))
    }
}

/// Flattening a table that embeds no other table lists only properties that
/// no exclude directive names for it (and that carry neither the exclude nor
/// the inside-array flag).
pub proof fn lemma_leaf_flatten_respects_excludes(
    tables: Seq<SendTable>,
    table: SendTable,
    i: int,
    excludes: Seq<SendProp>,
    path: Seq<char>,
    depth: nat,
)
    requires
        0 <= i,
        forall|k: int| 0 <= k < table.props@.len() ==> (#[trigger] table.props@[k]).prop_type
            != DATA_TABLE_TAG,
    ensures
        flatten_from(tables, table, i, excludes, path, depth) matches Ok((a, b)) ==> forall|j: int|
            0 <= j < a.len() ==> !is_skipped(table, (#[trigger] a[j]).0, excludes),
    decreases table.props@.len() - i,
{
    if i < table.props@.len() {
        lemma_leaf_flatten_respects_excludes(tables, table, i + 1, excludes, path, depth);
        let p = table.props@[i];
        if let Ok((a, b)) = flatten_from(tables, table, i, excludes, path, depth) {
            if flags_valid(p.flags) && !is_skipped(table, p, excludes) {
                let pp = join_path(path, p.var_name@);
                if let Ok((ra, rb)) = flatten_from(tables, table, i + 1, excludes, path, depth) {
                    assert(a =~= seq![(p, pp)] + ra);
                    assert forall|j: int| 0 <= j < a.len() implies !is_skipped(
                        table,
                        (#[trigger] a[j]).0,
                        excludes,
                    ) by {
                        if j > 0 {
                            assert(a[j] == ra[j - 1]);
                        }
                    }
                }
            }
        }
    }
}

/// The flattened lists of the table at index `j`: its exclude directives are
/// gathered first, then its properties flattened against them, each nesting
/// at most one level per known table.
pub open spec fn flattened(tables: Seq<SendTable>, j: int) -> Result<
    (Seq<(SendProp, Seq<char>)>, Seq<(SendProp, Seq<char>)>),
    DemoError,
> {
    match excludes_from(tables, tables[j], 0, depth_for(tables)) {
        Ok(ex) => flatten_from(tables, tables[j], 0, ex, Seq::empty(), depth_for(tables)),
        Err(e) => Err(e),
    }
}

/// Whether a server class carries the flattened lists of its owning table.
pub open spec fn class_filled(tables: Seq<SendTable>, sc: ServerClass) -> bool {
    lookup(tables, sc.owning_name@) matches Some(j) && flattened(tables, j) == Ok::<
        (Seq<(SendProp, Seq<char>)>, Seq<(SendProp, Seq<char>)>),
        DemoError,
    >((prop_views(sc.props@), prop_views(sc.array_props@)))
}

/// The number of bits that a class id below `n` classes takes: the bit length
/// of `n`, and at least one.
pub open spec fn class_bits(n: int) -> nat
    decreases n,
{
    if n <= 1 {
        1
    } else {
        1 + class_bits(n / 2)
    }
}

proof fn lemma_class_bits_bound(n: int, k: nat)
    requires
        k >= 1,
        n < crate::cursor::pow2(k),
    ensures
        1 <= class_bits(n) <= k,
    decreases n,
{
    if n > 1 {
        assert(k >= 2) by {
            if k == 1 {
                assert(crate::cursor::pow2(1) == 2 * crate::cursor::pow2(0));
            }
        }
        assert(crate::cursor::pow2(k) == 2 * crate::cursor::pow2((k - 1) as nat));
        lemma_class_bits_bound(n / 2, (k - 1) as nat);
    }
}

/// What reading a class record at bit `p` gives: its id, which may not
/// exceed `count`, its name and its table's name, and the bit after it.
pub open spec fn class_record(buf: Seq<u8>, p: int, count: i16) -> Result<
    (i16, Seq<char>, Seq<char>, int),
    DemoError,
> {
    let id = crate::cursor::bits_le(buf, p, 16) as u16 as i16;
    if p + 16 > buf.len() * 8 {
        Err(DemoError::OutOfBounds)
    } else if id > count {
        Err(DemoError::BadClassId)
    } else {
        match crate::cursor::cstr_at(buf, p + 16) {
            Err(e) => Err(e),
            Ok((name, q)) => match crate::cursor::cstr_at(buf, q) {
                Err(e) => Err(e),
                Ok((owning, e)) => Ok((id, name, owning, e)),
            },
        }
    }
}

impl ServerClass {
    /// Sets this class's flattened lists from its owning table among
    /// `tables`, against the exclude directives `excludes`.
    pub fn fill_props(&mut self, excludes: &Vec<SendProp>, tables: &Vec<SendTable>) -> (r: Result<
        (),
        DemoError,
    >)
        ensures
            final(self).class_id == old(self).class_id,
            final(self).name == old(self).name,
            final(self).owning_name == old(self).owning_name,
            r is Err ==> *final(self) == *old(self),
            match lookup(tables@, old(self).owning_name@) {
                None => r == Err::<(), DemoError>(DemoError::MissingTable),
                Some(j) => match flatten_from(
                    tables@,
                    tables@[j],
                    0,
                    excludes@,
                    Seq::empty(),
                    depth_for(tables@),
                ) {
                    Ok((a, b)) => r.is_ok() && prop_views(final(self).props@) == a && prop_views(
                        final(self).array_props@,
                    ) == b,
                    Err(e) => r == Err::<(), DemoError>(e),
                },
            },
    {
        let j = match find_by_name(tables, &self.owning_name) {
            Some(j) => j,
            None => {
                return Err(DemoError::MissingTable);
            },
        };
        let (props, array_props) = Self::gather_props(
            &tables[j],
            tables,
            excludes,
            String::new(),
            tables.len(),
        )?;
        self.props = props;
        self.array_props = array_props;
        Ok(())
    }

    /// Reads one class record: a 16-bit id, which may not exceed
    /// `class_count`, then the class name and its table's name as
    /// zero-terminated strings. The flattened lists start empty.
    pub fn parse(cursor: &mut Cursor, class_count: i16) -> (r: Result<ServerClass, DemoError>)
        requires
            old(cursor).wf(),
        ensures
            final(cursor).wf(),
            final(cursor).buf() == old(cursor).buf(),
            match class_record(old(cursor).buf(), old(cursor).pos() as int, class_count) {
                Ok((id, name, owning, e)) => (r matches Ok(sc) && sc.class_id == id && sc.name@ == name
                    && sc.owning_name@ == owning && sc.props@.len() == 0 && sc.array_props@.len() == 0)
                    && final(cursor).pos() == e,
                Err(err) => r == Err::<ServerClass, DemoError>(err),
            },
    {
        let class_id = cursor.read_i16()?;
        if class_id > class_count {
            return Err(DemoError::BadClassId);
        }
        let name = cursor.read_cstr_until()?;
        let owning_name = cursor.read_cstr_until()?;
        Ok(ServerClass { class_id, name, owning_name, props: Vec::new(), array_props: Vec::new() })
    }
}

/// The schema tables that the framed messages from bit `p` carry, up to the
/// one marked as the end, and the bit after that one. Any other message is an
/// error.
pub open spec fn table_stream(buf: Seq<u8>, p: int) -> Result<(Seq<SendTableModel>, int), DemoError>
    decreases buf.len() * 8 - p,
{
    match framed_at(buf, p) {
        Err(e) => Err(e),
        Ok((m, e)) => if e <= p || e > buf.len() * 8 {
            Err(DemoError::OutOfBounds)
        } else {
            match m {
                MessageModel::SendTable(t) => if t.is_end {
                    Ok((Seq::empty(), e))
                } else {
                    match table_stream(buf, e) {
                        Err(err) => Err(err),
                        Ok((ts, f)) => Ok((seq![t] + ts, f)),
                    }
                },
                _ => Err(DemoError::NotSendTable),
            }
        },
    }
}

/// The `n` class records at bit `p`, each checked against `count`, and the
/// bit after them.
pub open spec fn class_records(buf: Seq<u8>, p: int, n: nat, count: i16) -> Result<
    (Seq<(i16, Seq<char>, Seq<char>)>, int),
    DemoError,
>
    decreases n,
{
    if n == 0 {
        Ok((Seq::empty(), p))
    } else {
        match class_record(buf, p, count) {
            Err(e) => Err(e),
            Ok((id, name, owning, e)) => match class_records(buf, e, (n - 1) as nat, count) {
                Err(err) => Err(err),
                Ok((rs, f)) => Ok((seq![(id, name, owning)] + rs, f)),
            },
        }
    }
}

/// The views of some schema tables.
pub open spec fn table_views(tabs: Seq<SendTable>) -> Seq<SendTableModel> {
    tabs.map_values(|t: SendTable| t@)
}

/// Whether each class carries the id and names of its record.
pub open spec fn classes_read(cs: Seq<ServerClass>, recs: Seq<(i16, Seq<char>, Seq<char>)>) -> bool {
    &&& cs.len() == recs.len()
    &&& forall|i: int|
        0 <= i < cs.len() ==> {
            &&& (#[trigger] cs[i]).class_id == recs[i].0
            &&& cs[i].name@ == recs[i].1
            &&& cs[i].owning_name@ == recs[i].2
        }
}

/// Whether every record names an existing table whose flattening succeeds.
pub open spec fn classes_resolve(tabs: Seq<SendTable>, recs: Seq<(i16, Seq<char>, Seq<char>)>) -> bool {
    forall|i: int|
        0 <= i < recs.len() ==> (lookup(tabs, (#[trigger] recs[i]).2) matches Some(j) && flattened(
            tabs,
            j,
        ) is Ok)
}

/// What the schema read from tables `ts` and records `recs` is: on success,
/// those tables and classes, each filled; a failure comes only from a record
/// that does not resolve among the tables.
pub open spec fn schema_result(
    r: Result<DataTable, DemoError>,
    ts: Seq<SendTableModel>,
    recs: Seq<(i16, Seq<char>, Seq<char>)>,
) -> bool {
    match r {
        Ok(dt) => {
            &&& table_views(dt.data_tables@) == ts
            &&& classes_read(dt.server_classes@, recs)
            &&& forall|k: int|
                0 <= k < dt.server_classes@.len() ==> class_filled(
                    dt.data_tables@,
                    #[trigger] dt.server_classes@[k],
                )
            &&& dt.service_class_bits == class_bits(recs.len() as int)
        },
        Err(_) => exists|tabs: Seq<SendTable>|
            table_views(tabs) == ts && !classes_resolve(tabs, recs),
    }
}

/// What reading a class schema at bit `at` gives: the schema-table stream,
/// a 16-bit class count and the class records, then the flattened classes.
pub open spec fn schema_parse_result(r: Result<DataTable, DemoError>, buf: Seq<u8>, at: int) -> bool {
    match table_stream(buf, at) {
        Err(e) => r == Err::<DataTable, DemoError>(e),
        Ok((ts, q)) => if q + 16 > buf.len() * 8 {
            r == Err::<DataTable, DemoError>(DemoError::OutOfBounds)
        } else {
            let count = bits_le(buf, q, 16) as u16 as i16;
            match class_records(
                buf,
                q + 16,
                if count < 0 { 0 } else { count as nat },
                count,
            ) {
                Err(e) => r == Err::<DataTable, DemoError>(e),
                Ok((recs, e)) => schema_result(r, ts, recs),
            }
        },
    }
}

/// The number of bits a class id takes for `count` classes.
fn class_id_bits(count: i16) -> (r: u8)
    ensures
        r == class_bits(count as int),
{
    let mut iter: i16 = count;
    let mut bits: u8 = 1;
    proof {
        crate::cursor::lemma_pow2_widths();
        lemma_class_bits_bound(count as int, 16);
    }
    while iter > 1
        invariant
            bits + class_bits(iter as int) == 1 + class_bits(count as int),
            1 <= bits <= 16,
            class_bits(count as int) <= 16,
            crate::cursor::pow2(16) == 0x1_0000,
        decreases iter,
    {
        proof {
            lemma_class_bits_bound((iter / 2) as int, 16);
        }
        iter = iter / 2;
        bits = bits + 1;
    }
    bits
}

impl DataTable {
    /// Reads the class schema: schema-table messages up to the one marked as
    /// the end (any other message is an error), then a 16-bit class count and
    /// that many class records, and finally flattens each class's table.
    #[verifier::rlimit(50)]
    pub fn parse(cursor: &mut Cursor) -> (r: Result<DataTable, DemoError>)
        requires
            old(cursor).wf(),
        ensures
            final(cursor).wf(),
            schema_parse_result(r, old(cursor).buf(), old(cursor).pos() as int),
            r matches Ok(dt) ==> forall|k: int|
                0 <= k < dt.data_tables@.len() ==> !(#[trigger] dt.data_tables@[k]).is_end,
    {
        let ghost buf = old(cursor).buf();
        let ghost p0 = old(cursor).pos() as int;
        let mut data_tables: Vec<SendTable> = Vec::new();
        let ghost mut acc: Seq<SendTableModel> = Seq::empty();
        let mut done = false;
        while !done
            invariant
                cursor.wf(),
                cursor.buf() == buf,
                buf == old(cursor).buf(),
                p0 == old(cursor).pos() as int,
                forall|k: int| 0 <= k < data_tables@.len() ==> !(#[trigger] data_tables@[k]).is_end,
                table_views(data_tables@) == acc,
                !done ==> match table_stream(buf, cursor.pos() as int) {
                    Ok((rest, q)) => table_stream(buf, p0) == Ok::<(Seq<SendTableModel>, int), DemoError>(
                        (acc + rest, q),
                    ),
                    Err(e) => table_stream(buf, p0) == Err::<(Seq<SendTableModel>, int), DemoError>(e),
                },
                done ==> table_stream(buf, p0) == Ok::<(Seq<SendTableModel>, int), DemoError>(
                    (acc, cursor.pos() as int),
                ),
            decreases cursor.remaining(),
        {
            proof {
                cursor.lemma_wf_bounds();
            }
            let ghost here = cursor.pos() as int;
            let msg = match parse_message(cursor) {
                Ok(m) => m,
                Err(e) => {
                    return Err(e);
                },
            };
            proof {
                cursor.lemma_wf_bounds();
            }
            let ghost mm = framed_at(buf, here).unwrap().0;
            match msg {
                Message::SendTable(st) => {
                    if st.is_end {
                        done = true;
                        assert(acc + Seq::<SendTableModel>::empty() =~= acc);
                    } else {
                        let ghost t = st@;
                        data_tables.push(st);
                        proof {
                            assert(table_views(data_tables@) =~= acc.push(t));
                            if let Ok((rest, q)) = table_stream(buf, cursor.pos() as int) {
                                assert(acc + (seq![t] + rest) =~= acc.push(t) + rest);
                            }
                            acc = acc.push(t);
                        }
                    }
                },
                _ => {
                    return Err(DemoError::NotSendTable);
                },
            }
        }
        let ghost q = cursor.pos() as int;
        let server_class_count = cursor.read_i16()?;
        let ghost total: nat = if server_class_count < 0 { 0 } else { server_class_count as nat };
        let mut parsed: Vec<ServerClass> = Vec::new();
        let ghost mut recs: Seq<(i16, Seq<char>, Seq<char>)> = Seq::empty();
        let mut n: i16 = 0;
        while n < server_class_count
            invariant
                cursor.wf(),
                cursor.buf() == buf,
                0 <= n <= server_class_count || (n == 0 && server_class_count < 0),
                parsed@.len() == n,
                buf == old(cursor).buf(),
                p0 == old(cursor).pos() as int,
                table_stream(buf, p0) == Ok::<(Seq<SendTableModel>, int), DemoError>((acc, q)),
                q + 16 <= buf.len() * 8,
                server_class_count == bits_le(buf, q, 16) as u16 as i16,
                total == (if server_class_count < 0 { 0 } else { server_class_count as nat }),

                classes_read(parsed@, recs),
                forall|k: int| 0 <= k < parsed@.len() ==> (#[trigger] parsed@[k]).props@.len() == 0,
                match class_records(buf, cursor.pos() as int, (total - n) as nat, server_class_count) {
                    Ok((rest, e)) => class_records(buf, q + 16, total, server_class_count) == Ok::<
                        (Seq<(i16, Seq<char>, Seq<char>)>, int),
                        DemoError,
                    >((recs + rest, e)),
                    Err(e) => class_records(buf, q + 16, total, server_class_count) == Err::<
                        (Seq<(i16, Seq<char>, Seq<char>)>, int),
                        DemoError,
                    >(e),
                },
            decreases server_class_count - n,
        {
            let sc = ServerClass::parse(cursor, server_class_count)?;
            proof {
                let rec = (sc.class_id, sc.name@, sc.owning_name@);
                if let Ok((rest, e)) = class_records(buf, cursor.pos() as int, (total - n - 1) as nat, server_class_count) {
                    assert(recs + (seq![rec] + rest) =~= recs.push(rec) + rest);
                }
                recs = recs.push(rec);
            }
            parsed.push(sc);
            n = n + 1;
        }
        assert(recs + Seq::<(i16, Seq<char>, Seq<char>)>::empty() =~= recs);
        let ghost e2 = cursor.pos() as int;
        let mut server_classes: Vec<ServerClass> = Vec::new();
        let mut i: usize = 0;
        while i < parsed.len()
            invariant
                cursor.wf(),
                i <= parsed@.len(),
                classes_read(parsed@, recs),
                buf == old(cursor).buf(),
                p0 == old(cursor).pos() as int,
                table_stream(buf, p0) == Ok::<(Seq<SendTableModel>, int), DemoError>((acc, q)),
                q + 16 <= buf.len() * 8,
                server_class_count == bits_le(buf, q, 16) as u16 as i16,
                total == (if server_class_count < 0 { 0 } else { server_class_count as nat }),
                class_records(buf, q + 16, total, server_class_count) == Ok::<
                    (Seq<(i16, Seq<char>, Seq<char>)>, int),
                    DemoError,
                >((recs, e2)),
                recs.len() == total,
                table_views(data_tables@) == acc,
                server_classes@.len() == i,
                forall|k: int| 0 <= k < i ==> {
                    &&& class_filled(data_tables@, #[trigger] server_classes@[k])
                    &&& server_classes@[k].class_id == recs[k].0
                    &&& server_classes@[k].name@ == recs[k].1
                    &&& server_classes@[k].owning_name@ == recs[k].2
                },
            decreases parsed@.len() - i,
        {
            let sc = &parsed[i];
            let j = match find_by_name(&data_tables, &sc.owning_name) {
                Some(j) => j,
                None => {
                    assert(!classes_resolve(data_tables@, recs)) by {
                        assert(recs[i as int].2 == sc.owning_name@);
                    }
                    return Err(DemoError::MissingTable);
                },
            };
            let excludes = match Self::gather_excludes(&data_tables[j], &data_tables, data_tables.len()) {
                Ok(v) => v,
                Err(e) => {
                    assert(!classes_resolve(data_tables@, recs)) by {
                        assert(recs[i as int].2 == sc.owning_name@);
                        assert(flattened(data_tables@, j as int) is Err);
                    }
                    return Err(e);
                },
            };
            let mut filled = ServerClass {
                class_id: sc.class_id,
                name: sc.name.clone(),
                owning_name: sc.owning_name.clone(),
                props: Vec::new(),
                array_props: Vec::new(),
            };
            match filled.fill_props(&excludes, &data_tables) {
                Ok(()) => {},
                Err(e) => {
                    assert(!classes_resolve(data_tables@, recs)) by {
                        assert(recs[i as int].2 == sc.owning_name@);
                        assert(flattened(data_tables@, j as int) is Err);
                    }
                    return Err(e);
                },
            }
            server_classes.push(filled);
            i = i + 1;
        }
        let service_class_bits = class_id_bits(server_class_count);
        Ok(DataTable { data_tables, server_classes, service_class_bits })
    }
}

} // verus!
