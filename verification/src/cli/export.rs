//! # The `export` verb
//!
//! A portable dump of a store: its own metadata plus its bodies, byte for
//! byte. Nothing is parsed on the way out.

use crate::cli::item::{level_name, level_text};
use crate::cli::{bytes, bytes_text, count_text};
use crate::client::reader::{ItemView, PimdirItem};
use crate::codec::{
    flags_field, json_object, names_of, print_object, push_flags, FieldView, PimdirField,
};
use crate::list::push_to;
use crate::scan::{decimal, decimal_text, fixed_text, push_fixed};
use crate::text::{lemma_ascii_order, Text};
use crate::text_map::{ascending, lemma_steps_ascend, TextSet};
use vstd::prelude::*;
use vstd::string::*;
use vstd::utf8::*;

verus! {

/// How many items are read per page while dumping a collection.
pub const PAGE: usize = 500;

/// The dump format's own version, bumped when its shape changes.
pub const FORMAT_VERSION: i64 = 1;

/// The file a collection's items are dumped to. A collection id may hold
/// anything a mailbox name may hold, slashes included, so files are
/// numbered.
pub fn items_file(number: u32, retained: bool) -> (file: String)
    ensures
        file@ == "items/"@ + fixed_text(number as int, 4) + if retained {
            ".retained.jsonl"@
        } else {
            ".jsonl"@
        },
{
    let mut file = "items/".to_owned();
    push_fixed(&mut file, number as i64, 4);
    if retained {
        file.append(".retained.jsonl");
    } else {
        file.append(".jsonl");
    }
    file
}

/// The `export` output.
#[derive(Debug, PartialEq, Eq)]
pub struct ExportOutput {
    /// Where the dump was written.
    pub dir: String,
    /// How many collections it describes.
    pub collections: usize,
    /// How many items it holds.
    pub items: u64,
    /// How many bodies were copied.
    pub objects: u64,
    /// What those bodies weigh.
    pub bytes: u64,
    /// Hashes whose body was missing from the store.
    pub missing: Vec<String>,
}

impl ExportOutput {
    /// What the verb says.
    pub fn lines(&self) -> (lines: Vec<String>)
        ensures
            lines.deep_view() == seq![
                "Exported "@ + decimal_text(self.collections as nat) + " collection(s), "@
                    + decimal_text(self.items as nat) + " item(s) and "@ + decimal_text(
                    self.objects as nat,
                ) + " object(s) ("@ + bytes_text(self.bytes as nat) + ") to "@ + self.dir@,
            ] + if self.missing.len() > 0 {
                seq![
                    decimal_text(self.missing.len() as nat)
                        + " object(s) had no body in the blob store and were left out; run `pimdir check`"@,
                ]
            } else {
                Seq::empty()
            },
    {
        let mut lines: Vec<String> = Vec::new();
        let mut first = "Exported ".to_owned();
        first.append(count_text(self.collections).as_str());
        first.append(" collection(s), ");
        first.append(decimal(self.items).as_str());
        first.append(" item(s) and ");
        first.append(decimal(self.objects).as_str());
        first.append(" object(s) (");
        first.append(bytes(self.bytes).as_str());
        first.append(") to ");
        first.append(self.dir.as_str());
        push_to(&mut lines, first);
        let ghost start = lines.deep_view();
        let ghost mut more: Seq<Text> = Seq::empty();
        if self.missing.len() > 0 {
            let mut second = count_text(self.missing.len());
            second.append(
                " object(s) had no body in the blob store and were left out; run `pimdir check`",
            );
            proof {
                more = seq![second@];
            }
            push_to(&mut lines, second);
        }
        assert(lines.deep_view() =~= start + more);
        assert(start.len() == 1);
        assert(lines.deep_view() =~= seq![start[0]] + more);
        lines
    }
}

/// The hashes of bodies some items point at, added to those already found.
pub open spec fn bodies_of(items: Seq<ItemView>) -> Set<Text>
    decreases items.len(),
{
    if items.len() == 0 {
        Set::empty()
    } else {
        match items.last().object {
            Some(hash) => bodies_of(items.drop_last()).insert(hash),
            None => bodies_of(items.drop_last()),
        }
    }
}

/// Adds the bodies a page of items points at to those to copy.
pub fn note_bodies(hashes: &mut TextSet, page: &Vec<PimdirItem>)
    ensures
        final(hashes)@ == old(hashes)@ + bodies_of(page.deep_view()),
{
    let ghost before = hashes@;
    let ghost all = page.deep_view();
    let mut i: usize = 0;
    assert(before + bodies_of(all.take(0)) =~= before);
    while i < page.len()
        invariant
            i <= page.len(),
            all == page.deep_view(),
            hashes@ == before + bodies_of(all.take(i as int)),
        decreases page.len() - i,
    {
        proof {
            assert(all.take(i + 1).drop_last() =~= all.take(i as int));
            assert(all.take(i + 1).last() == page@[i as int]@);
        }
        if let Some(hash) = &page[i].object {
            hashes.insert(hash.0.clone());
        }
        assert(hashes@ =~= before + bodies_of(all.take(i + 1)));
        i = i + 1;
    }
    assert(all.take(i as int) =~= all);
}

/// An optional text as a field.
pub open spec fn text_or_null(text: Option<Text>) -> FieldView {
    match text {
        Some(text) => FieldView::Text(text),
        None => FieldView::Null,
    }
}

/// The fields of one dumped item; a retained one states when and by which
/// source it was retired.
pub open spec fn dumped(collection: Text, item: ItemView, meta: Option<Text>) -> Seq<
    (Text, FieldView),
> {
    seq![
        ("collection"@, FieldView::Text(collection)),
        ("flags"@, flags_field(item.flags)),
        ("level"@, FieldView::Text(level_text(item.level))),
        ("link_id"@, FieldView::Text(item.link_id)),
        ("meta"@, text_or_null(meta)),
        ("object"@, text_or_null(item.object)),
    ] + (match item.retention {
        Some(retention) => seq![
            ("retained_at"@, FieldView::Text(retention.at)),
            ("retained_by"@, text_or_null(retention.by)),
        ],
        None => Seq::empty(),
    }) + seq![("seq"@, FieldView::Number(item.seq))]
}

proof fn lemma_dumped_names(collection: Text, item: ItemView, meta: Option<Text>)
    ensures
        ascending(names_of(dumped(collection, item, meta))),
{
    reveal_strlit("collection");
    reveal_strlit("flags");
    reveal_strlit("level");
    reveal_strlit("link_id");
    reveal_strlit("meta");
    reveal_strlit("object");
    reveal_strlit("retained_at");
    reveal_strlit("retained_by");
    reveal_strlit("seq");
    assert(is_ascii_chars("collection"@) && is_ascii_chars("flags"@) && is_ascii_chars("level"@));
    assert(is_ascii_chars("link_id"@) && is_ascii_chars("meta"@) && is_ascii_chars("object"@));
    assert(is_ascii_chars("retained_at"@) && is_ascii_chars("retained_by"@) && is_ascii_chars(
        "seq"@,
    ));
    assert("collection"@.take(0) =~= "flags"@.take(0));
    lemma_ascii_order("collection"@, "flags"@, 0);
    assert("flags"@.take(0) =~= "level"@.take(0));
    lemma_ascii_order("flags"@, "level"@, 0);
    assert("level"@.take(1) =~= "link_id"@.take(1));
    lemma_ascii_order("level"@, "link_id"@, 1);
    assert("link_id"@.take(0) =~= "meta"@.take(0));
    lemma_ascii_order("link_id"@, "meta"@, 0);
    assert("meta"@.take(0) =~= "object"@.take(0));
    lemma_ascii_order("meta"@, "object"@, 0);
    assert("object"@.take(0) =~= "retained_at"@.take(0));
    lemma_ascii_order("object"@, "retained_at"@, 0);
    assert("object"@.take(0) =~= "seq"@.take(0));
    lemma_ascii_order("object"@, "seq"@, 0);
    assert("retained_at"@.take(9) =~= "retained_by"@.take(9));
    lemma_ascii_order("retained_at"@, "retained_by"@, 9);
    assert("retained_by"@.take(0) =~= "seq"@.take(0));
    lemma_ascii_order("retained_by"@, "seq"@, 0);
    let names = names_of(dumped(collection, item, meta));
    match item.retention {
        Some(_) => {
            assert(names =~= seq![
                "collection"@,
                "flags"@,
                "level"@,
                "link_id"@,
                "meta"@,
                "object"@,
                "retained_at"@,
                "retained_by"@,
                "seq"@,
            ]);
        },
        None => {
            assert(names =~= seq![
                "collection"@,
                "flags"@,
                "level"@,
                "link_id"@,
                "meta"@,
                "object"@,
                "seq"@,
            ]);
        },
    }
    lemma_steps_ascend(names);
}

/// An optional text as a field.
fn field_of(text: &Option<String>) -> (field: PimdirField)
    ensures
        field@ == text_or_null(text.deep_view()),
{
    match text {
        Some(text) => PimdirField::Text(text.clone()),
        None => PimdirField::Null,
    }
}

/// One dumped item as a line of JSON, exactly as stored.
pub fn item_line(collection: &str, item: &PimdirItem, meta: &Option<String>) -> (line: String)
    ensures
        line@ == json_object(dumped(collection@, item@, meta.deep_view())),
{
    let ghost view = item@;
    let mut fields: Vec<(String, PimdirField)> = Vec::new();
    push_to(&mut fields, ("collection".to_owned(), PimdirField::Text(collection.to_owned())));
    push_flags(&mut fields, &item.flags);
    push_to(
        &mut fields,
        ("level".to_owned(), PimdirField::Text(level_name(item.level).to_owned())),
    );
    push_to(
        &mut fields,
        ("link_id".to_owned(), PimdirField::Text(item.link_id.0.clone())),
    );
    push_to(&mut fields, ("meta".to_owned(), field_of(meta)));
    let object: Option<String> = match &item.object {
        Some(hash) => Some(hash.0.clone()),
        None => None,
    };
    push_to(&mut fields, ("object".to_owned(), field_of(&object)));
    if let Some(retention) = &item.retention {
        push_to(
            &mut fields,
            ("retained_at".to_owned(), PimdirField::Text(retention.at.clone())),
        );
        push_to(&mut fields, ("retained_by".to_owned(), field_of(&retention.by)));
    }
    push_to(&mut fields, ("seq".to_owned(), PimdirField::Number(item.seq)));
    assert(fields.deep_view() =~= dumped(collection@, view, meta.deep_view()));
    proof {
        lemma_dumped_names(collection@, view, meta.deep_view());
    }
    print_object(&fields)
}

/// An export carries the body of every item that has one, once, and no
/// other.
pub proof fn lemma_an_export_carries_every_body(items: Seq<ItemView>, hash: Text)
    ensures
        bodies_of(items).contains(hash) <==> exists|i: int|
            0 <= i < items.len() && (#[trigger] items[i]).object == Some(hash),
    decreases items.len(),
{
    if items.len() > 0 {
        let rest = items.drop_last();
        let last = items.len() - 1;
        lemma_an_export_carries_every_body(rest, hash);
        assert(items.last() == items[last]);
        if bodies_of(rest).contains(hash) {
            let i = choose|i: int| 0 <= i < rest.len() && (#[trigger] rest[i]).object == Some(hash);
            assert(rest[i] == items[i]);
        }
        if exists|i: int| 0 <= i < items.len() && (#[trigger] items[i]).object == Some(hash) {
            let i = choose|i: int|
                0 <= i < items.len() && (#[trigger] items[i]).object == Some(hash);
            if i < last {
                assert(rest[i] == items[i]);
            }
        }
    }
}

/// A dumped item names its collection, its identity, its level and its
/// body, and when it was retained only where it was.
pub proof fn lemma_a_dump_names_its_item(collection: Text, item: ItemView, meta: Option<Text>)
    ensures
        ({
            let fields = dumped(collection, item, meta);
            &&& fields[0] == ("collection"@, FieldView::Text(collection))
            &&& fields[1].0 == "flags"@
            &&& fields[2] == ("level"@, FieldView::Text(level_text(item.level)))
            &&& fields[3] == ("link_id"@, FieldView::Text(item.link_id))
            &&& fields[4].0 == "meta"@ && (meta matches Some(text) ==> fields[4].1
                == FieldView::Text(text))
            &&& fields[5].0 == "object"@ && (item.object matches Some(hash) ==> fields[5].1
                == FieldView::Text(hash)) && (item.object is None ==> fields[5].1
                == FieldView::Null)
            &&& fields.last() == ("seq"@, FieldView::Number(item.seq))
            &&& item.retention is None ==> fields.len() == 7
            &&& item.retention matches Some(retention) ==> fields.len() == 9 && fields[6] == (
                "retained_at"@,
                FieldView::Text(retention.at),
            ) && fields[7].0 == "retained_by"@
        }),
{
}

} // verus!
