use crate::bytes::{
    element,
    le_signed,
    le_value,
    read_i16s_le,
    read_i32s_le,
    read_i64s_le,
    read_u16s_le,
    read_u32s_le,
    read_u64s_le,
};
use crate::decompress::{decompress_payload, payload_spec};
use crate::error::PcdError;
use crate::header::{
    all_ascii,
    ascii_chars,
    find_newline,
    is_word,
    lemma_scan_stops_at_unsupported_data,
    scan_header,
    split_ws,
    lemma_prefix_sum_step,
    lemma_scan_accepts_only_consistent,
    sum_fits,
    supported_format,
    parse_header,
    parse_header_spec,
    schema_consistent,
    sum_sizes,
    HeaderView,
    PointCloudHeader,
};
use vstd::prelude::*;
use vstd::slice::{slice_subrange, slice_to_vec};

verus! {

/// A loaded point cloud: its schema and the decompressed payload, which holds
/// one contiguous column per field, in the order the fields are declared.
pub struct PointCloud {
    pub header: PointCloudHeader,
    pub decompressed_buffer: Vec<u8>,
}

/// What loading the file `b` yields: its schema and its payload.
pub open spec fn load_spec(b: Seq<u8>) -> Result<(HeaderView, Seq<u8>), PcdError> {
    match parse_header_spec(b) {
        Err(e) => Err(e),
        Ok((h, p)) => match payload_spec(b.subrange(p, b.len() as int)) {
            Err(e) => Err(e),
            Ok(payload) => if sum_sizes(h.size_list) * h.num_points == payload.len() {
                Ok((h, payload))
            } else {
                Err(PcdError::DecompressionFailure)
            },
        },
    }
}

/// `i` is the first position at which `name` is declared.
pub open spec fn is_first_match(names: Seq<Seq<char>>, name: Seq<char>, i: int) -> bool {
    &&& 0 <= i < names.len()
    &&& names[i] == name
    &&& forall|j: int| 0 <= j < i ==> names[j] != name
}

/// Where the column of field `i` starts, in units of `num_points` bytes.
pub open spec fn field_offset(h: HeaderView, i: int) -> nat {
    sum_sizes(h.size_list.take(i))
}

/// Where the column of `name` starts, in units of `num_points` bytes, when it
/// is declared with type tag `tag` and width `width`.
pub open spec fn lookup_spec(h: HeaderView, name: Seq<char>, tag: Seq<char>, width: nat) -> Result<
    nat,
    PcdError,
> {
    if !h.field_names.contains(name) {
        Err(PcdError::FieldNotFound)
    } else {
        let i = choose|i: int| is_first_match(h.field_names, name, i);
        if h.type_list[i] == tag && h.size_list[i] == width {
            Ok(field_offset(h, i))
        } else {
            Err(PcdError::TypeMismatch)
        }
    }
}

impl PointCloud {
    /// The schema is consistent and the payload is exactly as long as its
    /// columns together.
    pub open spec fn wf(&self) -> bool {
        &&& schema_consistent(self.header@)
        &&& sum_sizes(self.header@.size_list) * self.header.num_points
            == self.decompressed_buffer@.len()
    }

    /// The bytes of the column that starts at `offset` and has elements of
    /// `width` bytes.
    pub open spec fn column(&self, offset: nat, width: nat) -> Seq<u8> {
        self.decompressed_buffer@.subrange(
            offset * self.header.num_points,
            (offset + width) * self.header.num_points,
        )
    }

    /// The raw column of `name`, when it is declared with `tag` and `width`.
    pub open spec fn field_bytes(&self, name: Seq<char>, tag: Seq<char>, width: nat) -> Result<
        Seq<u8>,
        PcdError,
    > {
        match lookup_spec(self.header@, name, tag, width) {
            Ok(off) => Ok(self.column(off, width)),
            Err(e) => Err(e),
        }
    }

    /// Whether the schema and the payload agree, as a loaded cloud's do.
    pub fn is_well_formed(&self) -> (r: bool)
        ensures
            r == self.wf(),
    {
        let h = &self.header;
        if !(h.field_names.len() == h.size_list.len() && h.size_list.len() == h.type_list.len()
            && sum_fits(&h.size_list)) {
            return false;
        }
        let width = record_width(&h.size_list);
        let len = self.decompressed_buffer.len();
        match width.checked_mul(h.num_points) {
            Some(total) => total == len,
            None => false,
        }
    }

    /// Loads a point cloud from the whole contents of a file: the header,
    /// then the compressed payload, which must hold exactly one column per
    /// declared field.
    pub fn from_bytes(b: &[u8]) -> (r: Result<PointCloud, PcdError>)
        ensures
            r is Ok <==> load_spec(b@) is Ok,
            r is Ok ==> r->Ok_0.header@ == load_spec(b@)->Ok_0.0
                && r->Ok_0.decompressed_buffer@ == load_spec(b@)->Ok_0.1,
            r is Ok ==> r->Ok_0.wf(),
            r is Err ==> r->Err_0 == load_spec(b@)->Err_0,
    {
        let (header, pos) = match parse_header(b) {
            Ok(hp) => hp,
            Err(e) => {
                return Err(e);
            },
        };
        let rest = slice_subrange(b, pos, b.len());
        let payload = match decompress_payload(rest) {
            Ok(p) => p,
            Err(e) => {
                return Err(e);
            },
        };
        let width = record_width(&header.size_list);
        let plen = payload.len();
        match width.checked_mul(header.num_points) {
            Some(total) => {
                if total != plen {
                    return Err(PcdError::DecompressionFailure);
                }
            },
            None => {
                return Err(PcdError::DecompressionFailure);
            },
        }
        Ok(PointCloud { header, decompressed_buffer: payload })
    }
}

/// The sum of the widths in `s`, which fits in `usize`.
fn record_width(s: &Vec<usize>) -> (r: usize)
    requires
        sum_sizes(s@) <= usize::MAX,
    ensures
        r == sum_sizes(s@),
{
    let mut acc: usize = 0;
    let mut i: usize = 0;
    while i < s.len()
        invariant
            i <= s@.len(),
            sum_sizes(s@) <= usize::MAX,
            acc as nat == sum_sizes(s@.take(i as int)),
        decreases s@.len() - i,
    {
        proof {
            lemma_prefix_sum_step(s@, i as int);
        }
        acc = acc + s[i];
        i = i + 1;
    }
    assert(s@.take(i as int) =~= s@);
    acc
}

/// From any declaration of `name` a first one can be found.
proof fn lemma_first_match_from(names: Seq<Seq<char>>, name: Seq<char>, j: int)
    requires
        0 <= j < names.len(),
        names[j] == name,
    ensures
        exists|i: int| is_first_match(names, name, i),
    decreases j,
{
    if exists|k: int| 0 <= k < j && names[k] == name {
        let k = choose|k: int| 0 <= k < j && names[k] == name;
        lemma_first_match_from(names, name, k);
    } else {
        assert(is_first_match(names, name, j));
    }
}

/// A declared name has a first position.
pub proof fn lemma_first_match_exists(names: Seq<Seq<char>>, name: Seq<char>)
    requires
        names.contains(name),
    ensures
        exists|i: int| is_first_match(names, name, i),
{
    let j = choose|j: int| 0 <= j < names.len() && names[j] == name;
    lemma_first_match_from(names, name, j);
}

/// A column that the schema locates lies inside the payload and holds
/// `width * num_points` bytes.
pub proof fn lemma_column_in_bounds(c: &PointCloud, name: Seq<char>, tag: Seq<char>, width: nat)
    requires
        c.wf(),
        lookup_spec(c.header@, name, tag, width) is Ok,
    ensures
        ({
            let off = lookup_spec(c.header@, name, tag, width)->Ok_0;
            let n = c.header.num_points as int;
            &&& off + width <= sum_sizes(c.header@.size_list)
            &&& off * n <= (off + width) * n <= c.decompressed_buffer@.len()
            &&& (off + width) * n - off * n == width * n
        }),
{
    let h = c.header@;
    lemma_first_match_exists(h.field_names, name);
    let i = choose|i: int| is_first_match(h.field_names, name, i);
    let s = h.size_list;
    let off = field_offset(h, i);
    let total = sum_sizes(s);
    let n = c.header.num_points as int;
    lemma_prefix_sum_step(s, i);
    assert(off + width <= total);
    assert(off * n <= (off + width) * n <= total * n) by (nonlinear_arith)
        requires
            off + width <= total,
            n >= 0,
    ;
    assert((off + width) * n - off * n == width * n) by (nonlinear_arith);
}

impl PointCloud {
    /// Locates the column of `fieldname`: the sum of the widths of the fields
    /// declared before its first declaration, provided that declaration has
    /// type tag `type_string` and width `item_size`.
    pub fn get_data_offset(&self, fieldname: &str, type_string: &str, item_size: usize) -> (r:
        Result<usize, PcdError>)
        requires
            self.wf(),
        ensures
            r is Ok <==> lookup_spec(self.header@, fieldname@, type_string@, item_size as nat) is Ok,
            r is Ok ==> r->Ok_0 as nat == lookup_spec(
                self.header@,
                fieldname@,
                type_string@,
                item_size as nat,
            )->Ok_0,
            r is Err ==> r->Err_0 == lookup_spec(
                self.header@,
                fieldname@,
                type_string@,
                item_size as nat,
            )->Err_0,
    {
        let ghost h = self.header@;
        let key = fieldname.to_owned();
        let mut data_offset: usize = 0;
        let mut i: usize = 0;
        while i < self.header.field_names.len()
            invariant
                self.wf(),
                h == self.header@,
                key@ == fieldname@,
                i <= h.field_names.len(),
                forall|j: int| 0 <= j < i ==> h.field_names[j] != fieldname@,
                data_offset as nat == field_offset(h, i as int),
            decreases h.field_names.len() - i,
        {
            assert(h.field_names[i as int] == self.header.field_names@[i as int]@);
            assert(h.type_list[i as int] == self.header.type_list@[i as int]@);
            if self.header.field_names[i].eq(&key) {
                proof {
                    assert(is_first_match(h.field_names, fieldname@, i as int));
                    assert(h.field_names.contains(fieldname@));
                    let k = choose|k: int| is_first_match(h.field_names, fieldname@, k);
                    assert(k == i);
                }
                if is_word(&self.header.type_list[i], type_string) && self.header.size_list[i]
                    == item_size {
                    return Ok(data_offset);
                } else {
                    return Err(PcdError::TypeMismatch);
                }
            }
            proof {
                lemma_prefix_sum_step(h.size_list, i as int);
            }
            data_offset = data_offset + self.header.size_list[i];
            i = i + 1;
        }
        assert(!h.field_names.contains(fieldname@));
        Err(PcdError::FieldNotFound)
    }

    /// The raw bytes of the column of `fieldname`, when it is declared with
    /// type tag `type_string` and width `item_size`.
    pub fn read_data<'a>(&'a self, fieldname: &str, type_string: &str, item_size: usize) -> (r:
        Result<&'a [u8], PcdError>)
        requires
            self.wf(),
        ensures
            r is Ok <==> self.field_bytes(fieldname@, type_string@, item_size as nat) is Ok,
            r is Ok ==> r->Ok_0@ == self.field_bytes(
                fieldname@,
                type_string@,
                item_size as nat,
            )->Ok_0,
            r is Ok ==> r->Ok_0@.len() == item_size * self.header.num_points,
            r is Err ==> r->Err_0 == self.field_bytes(
                fieldname@,
                type_string@,
                item_size as nat,
            )->Err_0,
    {
        let off = match self.get_data_offset(fieldname, type_string, item_size) {
            Ok(o) => o,
            Err(e) => {
                return Err(e);
            },
        };
        let n = self.header.num_points;
        let blen = self.decompressed_buffer.len();
        proof {
            lemma_column_in_bounds(self, fieldname@, type_string@, item_size as nat);
            assert(off as int * n as int <= (off + item_size) as int * n as int
                <= blen);
        }
        let start = off * n;
        let end = (off + item_size) * n;
        Ok(slice_subrange(self.decompressed_buffer.as_slice(), start, end))
    }

    /// The column of a one-byte unsigned field, byte for byte.
    pub fn get_data_u8(&self, fieldname: &str) -> (r: Result<Vec<u8>, PcdError>)
        requires
            self.wf(),
        ensures
            r is Ok <==> self.field_bytes(fieldname@, "U"@, 1) is Ok,
            r is Ok ==> r->Ok_0@ == self.field_bytes(fieldname@, "U"@, 1)->Ok_0,
            r is Ok ==> r->Ok_0@.len() == self.header.num_points,
            r is Err ==> r->Err_0 == self.field_bytes(fieldname@, "U"@, 1)->Err_0,
    {
        match self.read_data(fieldname, "U", 1) {
            Ok(col) => Ok(slice_to_vec(col)),
            Err(e) => Err(e),
        }
    }

    /// The column of a two-byte unsigned field, each element read little-endian.
    pub fn get_data_u16(&self, fieldname: &str) -> (r: Result<Vec<u16>, PcdError>)
        requires
            self.wf(),
        ensures
            r is Ok <==> self.field_bytes(fieldname@, "U"@, 2) is Ok,
            r is Ok ==> r->Ok_0@.len() == self.header.num_points,
            r is Ok ==> forall|i: int|
                0 <= i < r->Ok_0@.len() ==> #[trigger] r->Ok_0@[i] as nat == le_value(
                    element(self.field_bytes(fieldname@, "U"@, 2)->Ok_0, 2, i),
                ),
            r is Err ==> r->Err_0 == self.field_bytes(fieldname@, "U"@, 2)->Err_0,
    {
        match self.read_data(fieldname, "U", 2) {
            Ok(col) => {
                let mut v: Vec<u16> = vec![0u16; self.header.num_points];
                read_u16s_le(col, &mut v);
                Ok(v)
            },
            Err(e) => Err(e),
        }
    }

    /// The column of a four-byte unsigned field, each element read little-endian.
    pub fn get_data_u32(&self, fieldname: &str) -> (r: Result<Vec<u32>, PcdError>)
        requires
            self.wf(),
        ensures
            r is Ok <==> self.field_bytes(fieldname@, "U"@, 4) is Ok,
            r is Ok ==> r->Ok_0@.len() == self.header.num_points,
            r is Ok ==> forall|i: int|
                0 <= i < r->Ok_0@.len() ==> #[trigger] r->Ok_0@[i] as nat == le_value(
                    element(self.field_bytes(fieldname@, "U"@, 4)->Ok_0, 4, i),
                ),
            r is Err ==> r->Err_0 == self.field_bytes(fieldname@, "U"@, 4)->Err_0,
    {
        match self.read_data(fieldname, "U", 4) {
            Ok(col) => {
                let mut v: Vec<u32> = vec![0u32; self.header.num_points];
                read_u32s_le(col, &mut v);
                Ok(v)
            },
            Err(e) => Err(e),
        }
    }

    /// The column of an eight-byte unsigned field, each element read little-endian.
    pub fn get_data_u64(&self, fieldname: &str) -> (r: Result<Vec<u64>, PcdError>)
        requires
            self.wf(),
        ensures
            r is Ok <==> self.field_bytes(fieldname@, "U"@, 8) is Ok,
            r is Ok ==> r->Ok_0@.len() == self.header.num_points,
            r is Ok ==> forall|i: int|
                0 <= i < r->Ok_0@.len() ==> #[trigger] r->Ok_0@[i] as nat == le_value(
                    element(self.field_bytes(fieldname@, "U"@, 8)->Ok_0, 8, i),
                ),
            r is Err ==> r->Err_0 == self.field_bytes(fieldname@, "U"@, 8)->Err_0,
    {
        match self.read_data(fieldname, "U", 8) {
            Ok(col) => {
                let mut v: Vec<u64> = vec![0u64; self.header.num_points];
                read_u64s_le(col, &mut v);
                Ok(v)
            },
            Err(e) => Err(e),
        }
    }

    /// The column of a two-byte signed field, each element read little-endian as two's complement.
    pub fn get_data_i16(&self, fieldname: &str) -> (r: Result<Vec<i16>, PcdError>)
        requires
            self.wf(),
        ensures
            r is Ok <==> self.field_bytes(fieldname@, "I"@, 2) is Ok,
            r is Ok ==> r->Ok_0@.len() == self.header.num_points,
            r is Ok ==> forall|i: int|
                0 <= i < r->Ok_0@.len() ==> #[trigger] r->Ok_0@[i] as int == le_signed(
                    element(self.field_bytes(fieldname@, "I"@, 2)->Ok_0, 2, i),
                ),
            r is Err ==> r->Err_0 == self.field_bytes(fieldname@, "I"@, 2)->Err_0,
    {
        match self.read_data(fieldname, "I", 2) {
            Ok(col) => {
                let mut v: Vec<i16> = vec![0i16; self.header.num_points];
                read_i16s_le(col, &mut v);
                Ok(v)
            },
            Err(e) => Err(e),
        }
    }

    /// The column of a four-byte signed field, each element read little-endian as two's complement.
    pub fn get_data_i32(&self, fieldname: &str) -> (r: Result<Vec<i32>, PcdError>)
        requires
            self.wf(),
        ensures
            r is Ok <==> self.field_bytes(fieldname@, "I"@, 4) is Ok,
            r is Ok ==> r->Ok_0@.len() == self.header.num_points,
            r is Ok ==> forall|i: int|
                0 <= i < r->Ok_0@.len() ==> #[trigger] r->Ok_0@[i] as int == le_signed(
                    element(self.field_bytes(fieldname@, "I"@, 4)->Ok_0, 4, i),
                ),
            r is Err ==> r->Err_0 == self.field_bytes(fieldname@, "I"@, 4)->Err_0,
    {
        match self.read_data(fieldname, "I", 4) {
            Ok(col) => {
                let mut v: Vec<i32> = vec![0i32; self.header.num_points];
                read_i32s_le(col, &mut v);
                Ok(v)
            },
            Err(e) => Err(e),
        }
    }

    /// The column of an eight-byte signed field, each element read little-endian as two's complement.
    pub fn get_data_i64(&self, fieldname: &str) -> (r: Result<Vec<i64>, PcdError>)
        requires
            self.wf(),
        ensures
            r is Ok <==> self.field_bytes(fieldname@, "I"@, 8) is Ok,
            r is Ok ==> r->Ok_0@.len() == self.header.num_points,
            r is Ok ==> forall|i: int|
                0 <= i < r->Ok_0@.len() ==> #[trigger] r->Ok_0@[i] as int == le_signed(
                    element(self.field_bytes(fieldname@, "I"@, 8)->Ok_0, 8, i),
                ),
            r is Err ==> r->Err_0 == self.field_bytes(fieldname@, "I"@, 8)->Err_0,
    {
        match self.read_data(fieldname, "I", 8) {
            Ok(col) => {
                let mut v: Vec<i64> = vec![0i64; self.header.num_points];
                read_i64s_le(col, &mut v);
                Ok(v)
            },
            Err(e) => Err(e),
        }
    }
}

/// A file that loads declares the supported format tag and one width and one
/// type tag per field name, and its payload is exactly as long as the second
/// length prefix after the header says.
pub proof fn lemma_load_shape(b: Seq<u8>)
    requires
        load_spec(b) is Ok,
    ensures
        ({
            let h = load_spec(b)->Ok_0.0;
            let payload = load_spec(b)->Ok_0.1;
            let p = parse_header_spec(b)->Ok_0.1;
            &&& h.data_format == supported_format()
            &&& h.field_names.len() == h.size_list.len()
            &&& h.size_list.len() == h.type_list.len()
            &&& p + 8 <= b.len()
            &&& payload.len() == le_value(b.subrange(p + 4, p + 8))
        }),
{
    lemma_scan_accepts_only_consistent(b, 0, crate::header::empty_header());
    let p = parse_header_spec(b)->Ok_0.1;
    let rest = b.subrange(p, b.len() as int);
    assert(rest.subrange(4, 8) =~= b.subrange(p + 4, p + 8));
}

/// In a file that loads, the columns together are exactly as long as the
/// payload: the sum of the widths times the number of points.
pub proof fn lemma_load_layout(b: Seq<u8>)
    requires
        load_spec(b) is Ok,
    ensures
        sum_sizes(load_spec(b)->Ok_0.0.size_list) * load_spec(b)->Ok_0.0.num_points == load_spec(
            b,
        )->Ok_0.1.len(),
{
}

/// Every field, read at its own first declaration's type tag and width,
/// yields a column of `width * num_points` bytes.
pub proof fn lemma_declared_field_readable(c: &PointCloud, i: int)
    requires
        c.wf(),
        is_first_match(c.header@.field_names, c.header@.field_names[i], i),
    ensures
        ({
            let h = c.header@;
            let r = c.field_bytes(h.field_names[i], h.type_list[i], h.size_list[i] as nat);
            &&& r is Ok
            &&& r->Ok_0.len() == h.size_list[i] * c.header.num_points
        }),
{
    let h = c.header@;
    let name = h.field_names[i];
    let k = choose|k: int| is_first_match(h.field_names, name, k);
    assert(k == i);
    lemma_column_in_bounds(c, name, h.type_list[i], h.size_list[i] as nat);
}

/// Asking for a declared field at a type tag or width other than its first
/// declaration's yields `TypeMismatch`.
pub proof fn lemma_wrong_type_mismatch(
    c: &PointCloud,
    name: Seq<char>,
    tag: Seq<char>,
    width: nat,
    i: int,
)
    requires
        is_first_match(c.header@.field_names, name, i),
        c.header@.type_list[i] != tag || c.header@.size_list[i] != width,
    ensures
        c.field_bytes(name, tag, width) == Err::<Seq<u8>, PcdError>(PcdError::TypeMismatch),
{
    let h = c.header@;
    let k = choose|k: int| is_first_match(h.field_names, name, k);
    assert(k == i);
}

/// Asking for a name that the schema does not declare yields `FieldNotFound`.
pub proof fn lemma_absent_field_not_found(c: &PointCloud, name: Seq<char>, tag: Seq<char>, width: nat)
    requires
        !c.header@.field_names.contains(name),
    ensures
        c.field_bytes(name, tag, width) == Err::<Seq<u8>, PcdError>(PcdError::FieldNotFound),
{
}

/// A file whose header is rejected does not load, and fails for the reason
/// the header gave.
pub proof fn lemma_header_error_stops_load(b: Seq<u8>)
    requires
        parse_header_spec(b) is Err,
    ensures
        load_spec(b) == Err::<(HeaderView, Seq<u8>), PcdError>(parse_header_spec(b)->Err_0),
{
}

/// A file whose header is accepted and whose block expands to exactly the
/// bytes that the schema's columns fill loads: with the supported format tag,
/// that schema, and the expanded block as its payload, whose length is the
/// second length prefix.
pub proof fn lemma_load_succeeds(b: Seq<u8>)
    requires
        parse_header_spec(b) is Ok,
        payload_spec(b.subrange(parse_header_spec(b)->Ok_0.1, b.len() as int)) is Ok,
        sum_sizes(parse_header_spec(b)->Ok_0.0.size_list) * parse_header_spec(b)->Ok_0.0.num_points
            == payload_spec(b.subrange(parse_header_spec(b)->Ok_0.1, b.len() as int))->Ok_0.len(),
    ensures
        ({
            let (h, p) = parse_header_spec(b)->Ok_0;
            let payload = payload_spec(b.subrange(p, b.len() as int))->Ok_0;
            &&& load_spec(b) == Ok::<(HeaderView, Seq<u8>), PcdError>((h, payload))
            &&& h.data_format == supported_format()
            &&& payload.len() == le_value(b.subrange(p + 4, p + 8))
        }),
{
    lemma_load_shape(b);
}

/// A file whose header scan comes to a `DATA` line with one value other than
/// the supported tag does not load, and fails with `UnsupportedFormat`.
pub proof fn lemma_load_unsupported_format(b: Seq<u8>, pos: int, h: HeaderView)
    requires
        0 <= pos,
        scan_header(b, pos, h) == parse_header_spec(b),
        find_newline(b, pos) is Some,
        ({
            let toks = split_ws(b.subrange(pos, find_newline(b, pos)->0));
            &&& toks.len() == 2
            &&& all_ascii(toks)
            &&& ascii_chars(toks[0]) == "DATA"@
            &&& ascii_chars(toks[1]) != supported_format()
        }),
    ensures
        load_spec(b) == Err::<(HeaderView, Seq<u8>), PcdError>(PcdError::UnsupportedFormat),
{
    lemma_scan_stops_at_unsupported_data(b, pos, h);
}

} // verus!
