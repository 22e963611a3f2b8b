//! Schema tables ("send tables") as the server describes them, and their
//! decoding from the protocol message that carries one.
use vstd::prelude::*;

verus! {

/// One raw property descriptor of a schema table.
pub struct SendProp {
    /// The type tag; `-1` where the message leaves it out.
    pub prop_type: i32,
    pub var_name: String,
    /// The flag bit set (see `data_tables::PropFlags`).
    pub flags: i32,
    pub priority: i32,
    /// For a property of table type, the name of the table it embeds.
    pub dt_name: String,
    pub num_elements: i32,
    /// The low end of the value range, as the bits of a 32-bit float.
    pub low_value: u32,
    /// The high end of the value range, as the bits of a 32-bit float.
    pub high_value: u32,
    pub num_bits: i32,
}

/// One schema table: a name and its ordered property descriptors.
pub struct SendTable {
    /// Set on the message that closes the stream of tables.
    pub is_end: bool,
    pub net_table_name: String,
    pub needs_decoder: bool,
    pub props: Vec<SendProp>,
}

/// What a property descriptor holds, with its texts as character sequences.
pub struct SendPropModel {
    pub prop_type: i32,
    pub var_name: Seq<char>,
    pub flags: i32,
    pub priority: i32,
    pub dt_name: Seq<char>,
    pub num_elements: i32,
    pub low_value: u32,
    pub high_value: u32,
    pub num_bits: i32,
}

/// What a schema table holds.
pub struct SendTableModel {
    pub is_end: bool,
    pub net_table_name: Seq<char>,
    pub needs_decoder: bool,
    pub props: Seq<SendPropModel>,
}

impl View for SendProp {
    type V = SendPropModel;

    open spec fn view(&self) -> SendPropModel {
        SendPropModel {
            prop_type: self.prop_type,
            var_name: self.var_name@,
            flags: self.flags,
            priority: self.priority,
            dt_name: self.dt_name@,
            num_elements: self.num_elements,
            low_value: self.low_value,
            high_value: self.high_value,
            num_bits: self.num_bits,
        }
    }
}

impl View for SendTable {
    type V = SendTableModel;

    open spec fn view(&self) -> SendTableModel {
        SendTableModel {
            is_end: self.is_end,
            net_table_name: self.net_table_name@,
            needs_decoder: self.needs_decoder,
            props: self.props@.map_values(|p: SendProp| p@),
        }
    }
}

impl SendProp {
    /// A descriptor with the given type, name, flags and embedded-table name,
    /// and every other field zero.
    pub fn new(prop_type: i32, var_name: String, flags: i32, dt_name: String) -> (r: SendProp)
        ensures
            r.prop_type == prop_type,
            r.var_name == var_name,
            r.flags == flags,
            r.dt_name == dt_name,
            r.priority == 0,
            r.num_elements == 0,
            r.low_value == 0,
            r.high_value == 0,
            r.num_bits == 0,
    {
        SendProp {
            prop_type,
            var_name,
            flags,
            priority: 0,
            dt_name,
            num_elements: 0,
            low_value: 0,
            high_value: 0,
            num_bits: 0,
        }
    }

    /// An equal copy.
    pub fn duplicate(&self) -> (r: SendProp)
        ensures
            r == *self,
    {
        SendProp {
            prop_type: self.prop_type,
            var_name: self.var_name.clone(),
            flags: self.flags,
            priority: self.priority,
            dt_name: self.dt_name.clone(),
            num_elements: self.num_elements,
            low_value: self.low_value,
            high_value: self.high_value,
            num_bits: self.num_bits,
        }
    }
}

impl SendTable {
    /// A table with the given name and properties, not marked as the end.
    pub fn new(net_table_name: String, props: Vec<SendProp>) -> (r: SendTable)
        ensures
            r.net_table_name == net_table_name,
            r.props == props,
            !r.is_end,
            !r.needs_decoder,
    {
        SendTable { is_end: false, net_table_name, needs_decoder: false, props }
    }
}

} // verus!
