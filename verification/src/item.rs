use vstd::prelude::*;
use crate::errors::DtError;
use crate::le16_bytes;
use crate::ptable::{read_table, spec_read_table, spec_write_table, write_table};
use crate::text::{decode_string, encode_string, sjis_decode_of, sjis_encode_of};
use crate::util::{scan_bytes_until, string_at, string_skip, to_u16};

verus! {

/// One item of the flat table: its raw name and description bytes.
pub struct RawItem {
    pub name: Vec<u8>,
    pub desc: Vec<u8>,
}

/// The mathematical shape of a raw item.
pub struct ItemV {
    pub name: Seq<u8>,
    pub desc: Seq<u8>,
}

impl DeepView for RawItem {
    type V = ItemV;

    open spec fn deep_view(&self) -> ItemV {
        ItemV { name: self.name@, desc: self.desc@ }
    }
}

/// One item of the model: a positional identifier, a name and a description.
#[derive(Debug)]
pub struct Item {
    pub item_id: u64,
    pub item_name: String,
    pub item_desc: String,
}

pub struct ItemM {
    pub item_id: u64,
    pub item_name: Seq<char>,
    pub item_desc: Seq<char>,
}

impl DeepView for Item {
    type V = ItemM;

    open spec fn deep_view(&self) -> ItemM {
        ItemM { item_id: self.item_id, item_name: self.item_name@, item_desc: self.item_desc@ }
    }
}

/// The raw item a record offset points at: four bytes of stored sub-offsets
/// are skipped, then the name and the description follow as null-terminated
/// strings.
pub open spec fn spec_item_at(blob: Seq<u8>, off: int) -> ItemV {
    let name = string_at(blob, off + 4, 0);
    let dpos = string_skip(blob, off + 4, 0);
    ItemV { name, desc: string_at(blob, dpos, 0) }
}

/// Decodes a whole item-table blob: the self-terminating pointer table of
/// record offsets, then each record's two strings.
pub open spec fn spec_parse_items(blob: Seq<u8>) -> Result<Seq<ItemV>, DtError> {
    match spec_read_table(blob) {
        Err(e) => Err(e),
        Ok(offs) => Ok(Seq::new(offs.len(), |i: int| spec_item_at(blob, offs[i] as int))),
    }
}

/// Reads all items of an item-table blob.
#[verifier::loop_isolation(false)]
pub fn parse_items(blob: &Vec<u8>) -> (r: Result<Vec<RawItem>, DtError>)
    ensures
        match spec_parse_items(blob@) {
            Ok(its) => r matches Ok(o) && o.deep_view() == its,
            Err(e) => r == Err::<Vec<RawItem>, DtError>(e),
        },
{
    let (offsets, _first) = match read_table(blob) {
        Ok(t) => t,
        Err(e) => {
            return Err(e);
        },
    };
    let mut items: Vec<RawItem> = Vec::new();
    let mut k: usize = 0;
    while k < offsets.len()
        invariant
            k <= offsets@.len(),
            items@.len() == k,
            spec_read_table(blob@) == Ok::<Seq<u16>, DtError>(offsets@),
            forall|x: int|
                0 <= x < k ==> #[trigger] items.deep_view()[x] == spec_item_at(
                    blob@,
                    offsets@[x] as int,
                ),
        decreases offsets@.len() - k,
    {
        let off = offsets[k];
        let rec = off as usize + 4;
        let (name, dpos) = scan_bytes_until(blob, rec, 0);
        let (desc, _end) = scan_bytes_until(blob, dpos, 0);
        let item = RawItem { name, desc };
        let ghost prev = items.deep_view();
        proof {
            assert(item.deep_view() == spec_item_at(blob@, offsets@[k as int] as int));
        }
        items.push(item);
        proof {
            assert forall|x: int|
                0 <= x < k + 1 implies #[trigger] items.deep_view()[x] == spec_item_at(
                blob@,
                offsets@[x] as int,
            ) by {
                if x < k {
                    assert(items.deep_view()[x] == prev[x]);
                } else {
                    assert(items.deep_view()[x] == item.deep_view());
                }
            }
        }
        k = k + 1;
    }
    proof {
        assert(items.deep_view() =~= Seq::new(
            offsets@.len(),
            |i: int| spec_item_at(blob@, offsets@[i] as int),
        ));
    }
    Ok(items)
}

/// One item's record: the stored addresses of its name and description, then
/// the two null-terminated strings. `base` is the record's own position.
pub open spec fn spec_item_record(it: ItemV, base: int) -> Seq<u8> {
    le16_bytes(to_u16(base + 4)) + le16_bytes(to_u16(base + 4 + it.name.len() + 1)) + it.name
        + seq![0u8] + it.desc + seq![0u8]
}

/// All item records, in order, from `base` on.
pub open spec fn spec_item_recs(items: Seq<ItemV>, base: int) -> Seq<u8>
    decreases items.len(),
{
    if items.len() == 0 {
        seq![]
    } else {
        spec_item_record(items[0], base) + spec_item_recs(
            items.drop_first(),
            base + spec_item_record(items[0], base).len(),
        )
    }
}

/// The pointer table entries of the items: each record's position.
pub open spec fn spec_item_addrs(items: Seq<ItemV>, base: int) -> Seq<u16>
    decreases items.len(),
{
    if items.len() == 0 {
        seq![]
    } else {
        seq![to_u16(base)] + spec_item_addrs(
            items.drop_first(),
            base + spec_item_record(items[0], base).len(),
        )
    }
}

/// A whole item table: the pointer table, then the records it points into.
pub open spec fn spec_emit_items(items: Seq<ItemV>) -> Seq<u8> {
    spec_write_table(spec_item_addrs(items, 2 * items.len() as int)) + spec_item_recs(
        items,
        2 * items.len() as int,
    )
}

/// Encodes raw items into a whole item-table blob: writes every record while
/// recording its address, then prepends the pointer table.
#[verifier::loop_isolation(false)]
pub fn emit_items(items: &Vec<RawItem>) -> (r: Vec<u8>)
    ensures
        r@ == spec_emit_items(items.deep_view()),
{
    let ghost dv = items.deep_view();
    let n = items.len();
    let base: u128 = 2u128 * (n as u128);
    let mut recs: Vec<u8> = Vec::new();
    let mut addrs: Vec<u16> = Vec::new();
    let mut k: usize = 0;
    proof {
        assert(dv.skip(0) =~= dv);
        assert(Seq::<u16>::empty() + spec_item_addrs(dv, 2 * dv.len() as int) =~= spec_item_addrs(
            dv,
            2 * dv.len() as int,
        ));
        assert(Seq::<u8>::empty() + spec_item_recs(dv, 2 * dv.len() as int) =~= spec_item_recs(
            dv,
            2 * dv.len() as int,
        ));
    }
    while k < items.len()
        invariant
            k <= items@.len(),
            n == items@.len(),
            base == 2 * dv.len(),
            dv == items.deep_view(),
            spec_item_addrs(dv, 2 * dv.len() as int) == addrs@ + spec_item_addrs(
                dv.skip(k as int),
                2 * dv.len() as int + recs@.len(),
            ),
            spec_item_recs(dv, 2 * dv.len() as int) == recs@ + spec_item_recs(
                dv.skip(k as int),
                2 * dv.len() as int + recs@.len(),
            ),
        decreases items@.len() - k,
    {
        let ghost pre_recs = recs@;
        let ghost pre_addrs = addrs@;
        let item = &items[k];
        let rec_addr = ((base + recs.len() as u128) % 0x10000) as u16;
        addrs.push(rec_addr);
        let name_addr = ((base + recs.len() as u128 + 4) % 0x10000) as u16;
        let desc_addr = ((base + recs.len() as u128 + 4 + item.name.len() as u128 + 1)
            % 0x10000) as u16;
        recs.push((name_addr & 0xff) as u8);
        recs.push(((name_addr >> 8) & 0xff) as u8);
        recs.push((desc_addr & 0xff) as u8);
        recs.push(((desc_addr >> 8) & 0xff) as u8);
        crate::emit::push_bytes(&mut recs, &item.name);
        recs.push(0);
        crate::emit::push_bytes(&mut recs, &item.desc);
        recs.push(0);
        proof {
            let iv = dv[k as int];
            let b = 2 * dv.len() as int + pre_recs.len();
            assert(dv.skip(k as int)[0] == iv);
            assert(dv.skip(k as int).drop_first() =~= dv.skip(k + 1));
            assert(item.deep_view() == iv);
            assert(rec_addr == to_u16(b));
            assert(name_addr == to_u16(b + 4));
            assert(desc_addr == to_u16(b + 4 + iv.name.len() + 1));
            assert(recs@ =~= pre_recs + spec_item_record(iv, b));
            assert(addrs@ =~= pre_addrs + seq![rec_addr]);
            assert(pre_addrs + (seq![rec_addr] + spec_item_addrs(
                dv.skip(k + 1),
                b + spec_item_record(iv, b).len(),
            )) =~= addrs@ + spec_item_addrs(dv.skip(k + 1), 2 * dv.len() as int + recs@.len()));
            assert(pre_recs + (spec_item_record(iv, b) + spec_item_recs(
                dv.skip(k + 1),
                b + spec_item_record(iv, b).len(),
            )) =~= recs@ + spec_item_recs(dv.skip(k + 1), 2 * dv.len() as int + recs@.len()));
        }
        k = k + 1;
    }
    proof {
        assert(dv.skip(k as int) =~= Seq::<ItemV>::empty());
        assert(addrs@ + Seq::<u16>::empty() =~= addrs@);
        assert(recs@ + Seq::<u8>::empty() =~= recs@);
    }
    let mut out = write_table(&addrs);
    out.append(&mut recs);
    out
}

/// The item model a decoded table stands for: positional identifiers, text
/// decoded from the legacy charset.
pub open spec fn spec_item_model(its: Seq<ItemV>) -> Seq<ItemM> {
    Seq::new(
        its.len(),
        |i: int|
            ItemM {
                item_id: i as u64,
                item_name: sjis_decode_of(its[i].name),
                item_desc: sjis_decode_of(its[i].desc),
            },
    )
}

/// Decodes a whole item-table blob into the item model.
#[verifier::loop_isolation(false)]
pub fn items_from_byte_data(blob: &Vec<u8>) -> (r: Result<Vec<Item>, DtError>)
    ensures
        match spec_parse_items(blob@) {
            Ok(its) => r matches Ok(o) && o.deep_view() == spec_item_model(its),
            Err(e) => r == Err::<Vec<Item>, DtError>(e),
        },
{
    let raw = match parse_items(blob) {
        Ok(raw) => raw,
        Err(e) => {
            return Err(e);
        },
    };
    let ghost its = spec_parse_items(blob@)->Ok_0;
    let mut items: Vec<Item> = Vec::new();
    let mut k: usize = 0;
    while k < raw.len()
        invariant
            k <= raw@.len(),
            items@.len() == k,
            raw.deep_view() == its,
            forall|x: int|
                0 <= x < k ==> #[trigger] items.deep_view()[x] == spec_item_model(its)[x],
        decreases raw@.len() - k,
    {
        let it = &raw[k];
        let item = Item {
            item_id: k as u64,
            item_name: decode_string(&it.name),
            item_desc: decode_string(&it.desc),
        };
        let ghost prev = items.deep_view();
        proof {
            assert(it.deep_view() == its[k as int]);
            assert(item.deep_view() == spec_item_model(its)[k as int]);
        }
        items.push(item);
        proof {
            assert forall|x: int|
                0 <= x < k + 1 implies #[trigger] items.deep_view()[x] == spec_item_model(its)[x]
            by {
                if x < k {
                    assert(items.deep_view()[x] == prev[x]);
                } else {
                    assert(items.deep_view()[x] == item.deep_view());
                }
            }
        }
        k = k + 1;
    }
    proof {
        assert(items.deep_view() =~= spec_item_model(its));
    }
    Ok(items)
}

/// The raw items a model encodes to: the texts pass through the legacy
/// charset; identifiers play no part.
pub open spec fn spec_items_raw(items: Seq<ItemM>) -> Seq<ItemV> {
    Seq::new(
        items.len(),
        |i: int|
            ItemV {
                name: sjis_encode_of(items[i].item_name),
                desc: sjis_encode_of(items[i].item_desc),
            },
    )
}

/// Encodes the item model into a whole item-table blob.
#[verifier::loop_isolation(false)]
pub fn items_to_byte_data(items: &Vec<Item>) -> (r: Vec<u8>)
    ensures
        r@ == spec_emit_items(spec_items_raw(items.deep_view())),
{
    let ghost dv = items.deep_view();
    let mut raw: Vec<RawItem> = Vec::new();
    let mut k: usize = 0;
    while k < items.len()
        invariant
            k <= items@.len(),
            raw@.len() == k,
            dv == items.deep_view(),
            forall|x: int|
                0 <= x < k ==> #[trigger] raw.deep_view()[x] == spec_items_raw(dv)[x],
        decreases items@.len() - k,
    {
        let it = &items[k];
        let ri = RawItem {
            name: encode_string(it.item_name.as_str()),
            desc: encode_string(it.item_desc.as_str()),
        };
        let ghost prev = raw.deep_view();
        proof {
            assert(ri.deep_view() == spec_items_raw(dv)[k as int]);
        }
        raw.push(ri);
        proof {
            assert forall|x: int|
                0 <= x < k + 1 implies #[trigger] raw.deep_view()[x] == spec_items_raw(dv)[x] by {
                if x < k {
                    assert(raw.deep_view()[x] == prev[x]);
                } else {
                    assert(raw.deep_view()[x] == ri.deep_view());
                }
            }
        }
        k = k + 1;
    }
    proof {
        assert(raw.deep_view() =~= spec_items_raw(dv));
    }
    emit_items(&raw)
}

} // verus!

verus! {

/// Item identifiers are dense, zero-based positions.
pub proof fn lemma_item_ids_positional(its: Seq<ItemV>)
    ensures
        forall|i: int|
            0 <= i < its.len() ==> #[trigger] spec_item_model(its)[i].item_id == i as u64,
{
}

} // verus!
