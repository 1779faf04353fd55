use vstd::prelude::*;

verus! {

/// Storage layout of one field (column): where its symbol table lies within
/// the binary region, and how its row index is packed inside a row record.
pub struct FieldHeader {
    /// Field name, unique within a table.
    pub name: String,
    /// Byte offset of the field's symbol table within the binary region.
    pub offset: usize,
    /// Byte length of the field's symbol-table region.
    pub length: usize,
    /// Position of the field's packed row index within a row record, counted
    /// in bits from the least significant bit of the record's first byte.
    pub bit_offset: usize,
    /// Number of bits used to encode the row index.
    pub bit_width: usize,
    /// Signed adjustment added to the raw packed value to obtain the true
    /// symbol-table position.
    pub bias: i32,
}

impl FieldHeader {
    /// The symbol-table range `[offset, offset + length)` lies inside a
    /// binary region of `n` bytes.
    pub open spec fn table_in_bounds(&self, n: nat) -> bool {
        self.offset + self.length <= n
    }

    /// The packed row index lies inside one record of `record_size` bytes.
    pub open spec fn bits_in_record(&self, record_size: nat) -> bool {
        self.bit_offset + self.bit_width <= 8 * record_size
    }
}

/// The fields of one table, in declared column order.
pub struct TableHeader {
    pub fields: Vec<FieldHeader>,
}

} // verus!
