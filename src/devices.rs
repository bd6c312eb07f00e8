//! Displays found by their identifier blocks, and their names.

use crate::index::{hex_of, to_hex};
use pasedid::config::Config;
use pasedid::datamodel::base_block::DisplayDescriptor;
use pasedid::parser::edid::parse_edid;
use vstd::prelude::*;
use vstd::slice::slice_subrange;
use vstd::utf8::valid_utf8;
use vstd::string::{StrSliceExecFns, StringExecFns};

verus! {

/// A display with the product data read from its identifier block.
#[derive(Debug)]
pub struct Device {
    pub name: String,
    pub product_name: String,
    pub product_serial_number: Option<String>,
    pub edid_bytes: Vec<u8>,
    pub edid_hex: String,
}

/// The text descriptors of an identifier block that matter here.
#[derive(Clone, Debug)]
pub enum DescriptorText {
    ProductName(String),
    ProductSerialNumber(String),
    Other,
}

/// A `DescriptorText` as a mathematical value.
pub enum DescriptorView {
    ProductName(Seq<char>),
    ProductSerialNumber(Seq<char>),
    Other,
}

impl View for DescriptorText {
    type V = DescriptorView;

    open spec fn view(&self) -> DescriptorView {
        match self {
            DescriptorText::ProductName(s) => DescriptorView::ProductName(s@),
            DescriptorText::ProductSerialNumber(s) => DescriptorView::ProductSerialNumber(s@),
            DescriptorText::Other => DescriptorView::Other,
        }
    }
}

/// Why a device could not be described.
#[derive(Clone, Copy, Debug, PartialEq, Eq, Structural)]
pub enum DeviceError {
    /// The identifier block does not parse.
    InvalidEdid,
    /// The block names its product, or its serial number, twice.
    DuplicateDescriptor,
    /// The block does not name its product.
    MissingProductName,
}

/// The 18 bytes at offset `o` open a text descriptor: a product name, a
/// serial number or an alphanumeric string.
pub open spec fn text_descriptor_at(b: Seq<u8>, o: int) -> bool {
    &&& o + 18 <= b.len()
    &&& b[o] == 0 && b[o + 1] == 0 && b[o + 2] == 0 && b[o + 4] == 0
    &&& (b[o + 3] == 0xfc || b[o + 3] == 0xfe || b[o + 3] == 0xff)
}

/// Every text descriptor among the four 18-byte slots of the base block
/// (from offset 54) holds valid UTF-8 in its 13 bytes of text.
pub open spec fn descriptor_texts_are_utf8(b: Seq<u8>) -> bool {
    forall|k: int|
        0 <= k < 4 && #[trigger] text_descriptor_at(b, 54 + 18 * k) ==> valid_utf8(
            b.subrange(54 + 18 * k + 5, 54 + 18 * k + 18),
        )
}

/// Relies on std::str::from_utf8: `Ok` exactly when the bytes are valid UTF-8.
#[verifier::external_body]
fn is_utf8(b: &[u8]) -> (r: bool)
    ensures
        r == valid_utf8(b@),
{
    std::str::from_utf8(b).is_ok()
}

/// Whether the text descriptors of the base block hold valid UTF-8.
pub fn descriptor_texts_valid(b: &Vec<u8>) -> (r: bool)
    ensures
        r == descriptor_texts_are_utf8(b@),
{
    let mut k: usize = 0;
    while k < 4
        invariant
            k <= 4,
            forall|j: int|
                0 <= j < k && #[trigger] text_descriptor_at(b@, 54 + 18 * j) ==> valid_utf8(
                    b@.subrange(54 + 18 * j + 5, 54 + 18 * j + 18),
                ),
        decreases 4 - k,
    {
        let o: usize = 54 + 18 * k;
        if o + 18 <= b.len() && b[o] == 0 && b[o + 1] == 0 && b[o + 2] == 0 && b[o + 4] == 0 && (b[o + 3] == 0xfc
            || b[o + 3] == 0xfe || b[o + 3] == 0xff) {
            let text = slice_subrange(b.as_slice(), o + 5, o + 18);
            if !is_utf8(text) {
                assert(text_descriptor_at(b@, 54 + 18 * k));
                return false;
            }
        }
        k = k + 1;
    }
    true
}

/// The 18 bytes at offset `o` open a display range limits descriptor.
pub open spec fn range_limits_at(b: Seq<u8>, o: int) -> bool {
    &&& o + 18 <= b.len()
    &&& b[o] == 0 && b[o + 1] == 0 && b[o + 2] == 0 && b[o + 3] == 0xfd
}

/// The range limits descriptor at offset `o` holds no reserved value: its
/// offset flags (byte 4) have a clear high nibble and neither 2-bit field is
/// `0b01`; its timing support byte (byte 10) is 0, 1, 2 or 4; and with CVT
/// support, the preferred aspect ratio (bits 7-5 of byte 15) is at most 4.
pub open spec fn range_limits_defined_at(b: Seq<u8>, o: int) -> bool {
    &&& b[o + 4] < 16 && (b[o + 4] / 4) % 4 != 1 && b[o + 4] % 4 != 1
    &&& (b[o + 10] == 0 || b[o + 10] == 1 || b[o + 10] == 2 || b[o + 10] == 4)
    &&& (b[o + 10] == 4 ==> b[o + 15] / 32 <= 4)
}

/// A digital video input definition (byte 20, bit 7 set) names a defined
/// colour depth (bits 6-4 not `0b111`) and interface (bits 3-0 at most 5).
pub open spec fn video_input_defined(b: Seq<u8>) -> bool {
    b.len() > 20 && b[20] >= 128 ==> (b[20] / 16) % 8 != 7 && b[20] % 16 <= 5
}

/// No field that the parser reads holds a value it leaves undefined: the
/// video input definition, the range limits descriptors and the text
/// descriptors of the base block.
pub open spec fn edid_values_defined(b: Seq<u8>) -> bool {
    &&& video_input_defined(b)
    &&& forall|k: int|
        0 <= k < 4 && #[trigger] range_limits_at(b, 54 + 18 * k) ==> range_limits_defined_at(b, 54 + 18 * k)
    &&& descriptor_texts_are_utf8(b)
}

/// Whether every field of the block that the parser reads holds a defined
/// value.
pub fn edid_values_valid(b: &Vec<u8>) -> (r: bool)
    ensures
        r == edid_values_defined(b@),
{
    if b.len() > 20 && b[20] >= 128 && ((b[20] / 16) % 8 == 7 || b[20] % 16 > 5) {
        return false;
    }
    let mut k: usize = 0;
    while k < 4
        invariant
            k <= 4,
            video_input_defined(b@),
            forall|j: int|
                0 <= j < k && #[trigger] range_limits_at(b@, 54 + 18 * j) ==> range_limits_defined_at(b@, 54 + 18 * j),
        decreases 4 - k,
    {
        let o: usize = 54 + 18 * k;
        if o + 18 <= b.len() && b[o] == 0 && b[o + 1] == 0 && b[o + 2] == 0 && b[o + 3] == 0xfd {
            let f = b[o + 4];
            let t = b[o + 10];
            if !(f < 16 && (f / 4) % 4 != 1 && f % 4 != 1) || !(t == 0 || t == 1 || t == 2 || t == 4) || (t == 4
                && b[o + 15] / 32 > 4) {
                assert(range_limits_at(b@, 54 + 18 * k));
                return false;
            }
        }
        k = k + 1;
    }
    descriptor_texts_valid(b)
}

/// The descriptors that the parser finds in an identifier block, or `None`
/// where the block does not parse.
pub uninterp spec fn parsed_descriptors(b: Seq<u8>) -> Option<Seq<DescriptorView>>;

/// Relies on pasedid::parser::edid::parse_edid (extensions handled, the
/// whole input consumed): its base block's display descriptors, in order.
/// The parser panics on a value it leaves undefined (`unreachable!` on a
/// reserved colour depth, interface, range limit offset, timing support
/// byte or CVT aspect ratio; `unwrap` on a text descriptor that is not
/// UTF-8): `edid_values_defined` rules those out.
#[verifier::external_body]
fn edid_descriptors(b: &Vec<u8>) -> (r: Option<Vec<DescriptorText>>)
    requires
        edid_values_defined(b@),
    ensures
        r is Some <==> parsed_descriptors(b@) is Some,
        r is Some ==> r.unwrap()@.map_values(|d: DescriptorText| d@) == parsed_descriptors(b@).unwrap(),
{
    let (_, edid) = parse_edid(b, Config { handle_extensions: true }).ok()?;
    Some(edid.base_block.display_descriptors.0.into_iter().map(|d| match d {
        DisplayDescriptor::ProductName(pn) => DescriptorText::ProductName(pn.name),
        DisplayDescriptor::ProductSerialNumber(psn) => DescriptorText::ProductSerialNumber(psn.serial_number),
        _ => DescriptorText::Other,
    }).collect())
}

/// The product names among the descriptors, in order.
pub open spec fn product_names(ds: Seq<DescriptorView>) -> Seq<Seq<char>>
    decreases ds.len(),
{
    if ds.len() == 0 {
        Seq::empty()
    } else {
        match ds.last() {
            DescriptorView::ProductName(s) => product_names(ds.drop_last()).push(s),
            _ => product_names(ds.drop_last()),
        }
    }
}

/// The serial numbers among the descriptors, in order.
pub open spec fn serial_numbers(ds: Seq<DescriptorView>) -> Seq<Seq<char>>
    decreases ds.len(),
{
    if ds.len() == 0 {
        Seq::empty()
    } else {
        match ds.last() {
            DescriptorView::ProductSerialNumber(s) => serial_numbers(ds.drop_last()).push(s),
            _ => serial_numbers(ds.drop_last()),
        }
    }
}

proof fn lemma_descriptor_step(ds: Seq<DescriptorView>, i: int)
    requires
        0 <= i < ds.len(),
    ensures
        product_names(ds.take(i + 1)) == match ds[i] {
            DescriptorView::ProductName(s) => product_names(ds.take(i)).push(s),
            _ => product_names(ds.take(i)),
        },
        serial_numbers(ds.take(i + 1)) == match ds[i] {
            DescriptorView::ProductSerialNumber(s) => serial_numbers(ds.take(i)).push(s),
            _ => serial_numbers(ds.take(i)),
        },
{
    assert(ds.take(i + 1).drop_last() =~= ds.take(i));
}

/// Describes the display `name` from its identifier block and the block's
/// descriptors: it must name its product once, and its serial number at
/// most once.
pub fn device_from_descriptors(name: String, edid_bytes: Vec<u8>, descriptors: &Vec<DescriptorText>) -> (r: Result<Device, DeviceError>)
    ensures
        r == Err::<Device, DeviceError>(DeviceError::DuplicateDescriptor) <==> (product_names(
            descriptors@.map_values(|d: DescriptorText| d@),
        ).len() >= 2 || serial_numbers(descriptors@.map_values(|d: DescriptorText| d@)).len() >= 2),
        r == Err::<Device, DeviceError>(DeviceError::MissingProductName) <==> (product_names(
            descriptors@.map_values(|d: DescriptorText| d@),
        ).len() == 0 && serial_numbers(descriptors@.map_values(|d: DescriptorText| d@)).len() < 2),
        r is Err ==> r.unwrap_err() != DeviceError::InvalidEdid,
        r is Ok ==> r.unwrap().name == name && r.unwrap().edid_bytes == edid_bytes && r.unwrap().edid_hex@ == hex_of(
            edid_bytes@,
        ) && r.unwrap().product_name@ == product_names(descriptors@.map_values(|d: DescriptorText| d@))[0],
        r is Ok ==> (r.unwrap().product_serial_number is Some <==> serial_numbers(
            descriptors@.map_values(|d: DescriptorText| d@),
        ).len() == 1),
        r is Ok ==> (r.unwrap().product_serial_number is Some ==> r.unwrap().product_serial_number.unwrap()@
            == serial_numbers(descriptors@.map_values(|d: DescriptorText| d@))[0]),
{
    let ghost ds = descriptors@.map_values(|d: DescriptorText| d@);
    let mut product_name: Option<String> = None;
    let mut serial: Option<String> = None;
    let mut i: usize = 0;
    while i < descriptors.len()
        invariant
            i <= descriptors@.len(),
            ds == descriptors@.map_values(|d: DescriptorText| d@),
            product_names(ds.take(i as int)).len() <= 1,
            serial_numbers(ds.take(i as int)).len() <= 1,
            product_name is Some <==> product_names(ds.take(i as int)).len() == 1,
            product_name is Some ==> product_name.unwrap()@ == product_names(ds.take(i as int))[0],
            serial is Some <==> serial_numbers(ds.take(i as int)).len() == 1,
            serial is Some ==> serial.unwrap()@ == serial_numbers(ds.take(i as int))[0],
        decreases descriptors@.len() - i,
    {
        proof {
            lemma_descriptor_step(ds, i as int);
            lemma_descriptor_counts_grow(ds, i as int + 1);
        }
        match &descriptors[i] {
            DescriptorText::ProductName(s) => {
                if product_name.is_some() {
                    return Err(DeviceError::DuplicateDescriptor);
                }
                product_name = Some(s.clone());
            },
            DescriptorText::ProductSerialNumber(s) => {
                if serial.is_some() {
                    return Err(DeviceError::DuplicateDescriptor);
                }
                serial = Some(s.clone());
            },
            DescriptorText::Other => {},
        }
        i = i + 1;
    }
    assert(ds.take(i as int) =~= ds);
    match product_name {
        None => Err(DeviceError::MissingProductName),
        Some(product_name) => {
            let edid_hex = to_hex(&edid_bytes);
            Ok(Device { name, product_name, product_serial_number: serial, edid_bytes, edid_hex })
        },
    }
}

/// Names and serial numbers only accumulate along the descriptors.
proof fn lemma_descriptor_counts_grow(ds: Seq<DescriptorView>, n: int)
    requires
        0 <= n <= ds.len(),
    ensures
        product_names(ds.take(n)).len() <= product_names(ds).len(),
        serial_numbers(ds.take(n)).len() <= serial_numbers(ds).len(),
    decreases ds.len() - n,
{
    if n == ds.len() {
        assert(ds.take(n) =~= ds);
    } else {
        lemma_descriptor_step(ds, n);
        lemma_descriptor_counts_grow(ds, n + 1);
    }
}

/// Describes the display `name` from its identifier block; a block that
/// does not parse, or that holds a value the parser leaves undefined, is
/// invalid.
pub fn device_from_edid(name: String, edid_bytes: Vec<u8>) -> (r: Result<Device, DeviceError>)
    ensures
        r == Err::<Device, DeviceError>(DeviceError::InvalidEdid) <==> (!edid_values_defined(edid_bytes@)
            || parsed_descriptors(edid_bytes@) is None),
        edid_values_defined(edid_bytes@) && parsed_descriptors(edid_bytes@) is Some ==> (r == Err::<Device, DeviceError>(DeviceError::DuplicateDescriptor) <==> (
        product_names(parsed_descriptors(edid_bytes@).unwrap()).len() >= 2 || serial_numbers(
            parsed_descriptors(edid_bytes@).unwrap(),
        ).len() >= 2)),
        edid_values_defined(edid_bytes@) && parsed_descriptors(edid_bytes@) is Some ==> (r == Err::<Device, DeviceError>(DeviceError::MissingProductName) <==> (
        product_names(parsed_descriptors(edid_bytes@).unwrap()).len() == 0 && serial_numbers(
            parsed_descriptors(edid_bytes@).unwrap(),
        ).len() < 2)),
        r is Ok ==> r.unwrap().name == name && r.unwrap().edid_bytes == edid_bytes && r.unwrap().edid_hex@ == hex_of(
            edid_bytes@,
        ) && r.unwrap().product_name@ == product_names(parsed_descriptors(edid_bytes@).unwrap())[0],
        r is Ok ==> (r.unwrap().product_serial_number is Some <==> serial_numbers(
            parsed_descriptors(edid_bytes@).unwrap(),
        ).len() == 1),
        r is Ok ==> (r.unwrap().product_serial_number is Some ==> r.unwrap().product_serial_number.unwrap()@
            == serial_numbers(parsed_descriptors(edid_bytes@).unwrap())[0]),
{
    if !edid_values_valid(&edid_bytes) {
        return Err(DeviceError::InvalidEdid);
    }
    match edid_descriptors(&edid_bytes) {
        None => Err(DeviceError::InvalidEdid),
        Some(ds) => device_from_descriptors(name, edid_bytes, &ds),
    }
}

/// Whether `p` is a prefix of `s`.
pub open spec fn has_prefix(s: Seq<char>, p: Seq<char>) -> bool {
    p.len() <= s.len() && s.subrange(0, p.len() as int) == p
}

/// The name of the display whose identifier block lies at a path with these
/// components: the path ends in `drm/<card>/<card>-<name>/<file>`.
pub open spec fn device_name_of(components: Seq<String>) -> Option<Seq<char>> {
    let n = components.len();
    if n >= 4 && components[n - 4]@ == "drm"@ && has_prefix(components[n - 2]@, components[n - 3]@ + "-"@) {
        Some(components[n - 2]@.subrange(components[n - 3]@.len() as int + 1, components[n - 2]@.len() as int))
    } else {
        None
    }
}

/// The display name from the components of the path of its identifier
/// block, or `None` where the path is not laid out as `device_name_of` says.
pub fn get_device_name(components: &Vec<String>) -> (r: Option<String>)
    ensures
        r is Some <==> device_name_of(components@) is Some,
        r is Some ==> r.unwrap()@ == device_name_of(components@).unwrap(),
{
    let n = components.len();
    if n < 4 {
        return None;
    }
    proof {
        reveal_strlit("-");
    }
    let drm = String::from_str("drm");
    if !(components[n - 4] == drm) {
        return None;
    }
    let prefix = components[n - 3].clone().concat("-");
    assert(prefix@ == components@[n - 3]@ + "-"@);
    let c = components[n - 2].as_str();
    let plen = prefix.as_str().unicode_len();
    let clen = c.unicode_len();
    if plen > clen {
        return None;
    }
    let mut i: usize = 0;
    while i < plen
        invariant
            i <= plen <= clen,
            plen == prefix@.len(),
            clen == c@.len(),
            c@ == components@[n - 2]@,
            prefix@ == components@[n - 3]@ + "-"@,
            n == components@.len(),
            forall|j: int| 0 <= j < i ==> c@[j] == prefix@[j],
        decreases plen - i,
    {
        if c.get_char(i) != prefix.as_str().get_char(i) {
            assert(c@.subrange(0, plen as int)[i as int] != prefix@[i as int]);
            assert(c@.subrange(0, plen as int) != prefix@);
            assert(!has_prefix(components@[n - 2]@, components@[n - 3]@ + "-"@));
            return None;
        }
        i = i + 1;
    }
    assert(c@.subrange(0, plen as int) =~= prefix@);
    Some(String::from_str(c.substring_char(plen, clen)))
}

} // verus!
