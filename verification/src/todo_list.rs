//! Conversion-task records and the GUID-keyed collection that owns them.
//!
//! A record (`ToDoItem`) is a mapping from field names to string values. It
//! is created either by trusting construction — `new` never validates — or
//! by validating parse from a document (`from_yaml`), which drops any record
//! that lacks its kind's required keys. The collection (`ToDoList`) maps
//! caller-supplied GUIDs to records and round-trips through a document whose
//! root maps `todo_list` to the GUID-to-record mapping.

use vstd::prelude::*;
use crate::doc::{Doc, doc_get, doc_lookup, entries_of, text_of};
use crate::kv::{has_key, key_index, kv_map, lemma_key_at, lemma_push_fresh, lemma_set_key,
    set_key, unique_keys, value_of};
use crate::text::str_eq;

verus! {

/// The fields of `s`, read as their character sequences.
pub open spec fn pairs_view(s: Seq<(String, String)>) -> Seq<(Seq<char>, Seq<char>)> {
    s.map_values(|p: (String, String)| (p.0@, p.1@))
}

/// The keys a record of kind `kind` must carry to be accepted by parsing.
pub open spec fn required_keys_spec(kind: Seq<char>) -> Seq<Seq<char>> {
    if kind == "Shader"@ || kind == "Material"@ {
        seq!["unity_path"@, "godot_path"@, "instruction"@]
    } else if kind == "Prefab"@ || kind == "Animation"@ || kind == "Script"@ || kind
        == "Other"@ {
        seq!["unity_path"@, "godot_path"@]
    } else {
        Seq::empty()
    }
}

/// Every key that `kind` requires is present among `fields`.
pub open spec fn required_present(fields: Seq<(Seq<char>, Seq<char>)>, kind: Seq<char>) -> bool {
    forall|i: int|
        0 <= i < required_keys_spec(kind).len() ==> has_key(
            fields,
            #[trigger] required_keys_spec(kind)[i],
        )
}

/// `fields`, with each of `updates` stored in turn.
pub open spec fn set_pairs(
    fields: Seq<(Seq<char>, Seq<char>)>,
    updates: Seq<(Seq<char>, Seq<char>)>,
) -> Seq<(Seq<char>, Seq<char>)>
    decreases updates.len(),
{
    if updates.len() == 0 {
        fields
    } else {
        set_key(set_pairs(fields, updates.drop_last()), updates.last().0, updates.last().1)
    }
}

/// `fields`, with `v` appended under `k` unless `k` is already present.
pub open spec fn add_default(
    fields: Seq<(Seq<char>, Seq<char>)>,
    k: Seq<char>,
    v: Seq<char>,
) -> Seq<(Seq<char>, Seq<char>)> {
    if has_key(fields, k) {
        fields
    } else {
        fields.push((k, v))
    }
}

/// What `ToDoItem::new` builds: the kind under `type`, then the given
/// fields in order, then the default `status`, `reason` and `info` where
/// those keys are still absent. Nothing is validated.
pub open spec fn construct_pairs(
    kind: Seq<char>,
    fields: Seq<(Seq<char>, Seq<char>)>,
) -> Seq<(Seq<char>, Seq<char>)> {
    add_default(
        add_default(
            add_default(set_pairs(seq![("type"@, kind)], fields), "status"@, "Open"@),
            "reason"@,
            "New conversion task"@,
        ),
        "info"@,
        ""@,
    )
}

/// Every value among the document entries is a text leaf.
pub open spec fn all_text(es: Seq<(String, Doc)>) -> bool {
    forall|i: int| 0 <= i < es.len() ==> (#[trigger] es[i]).1 is Text
}

/// The document entries read as (key, text) pairs.
pub open spec fn doc_text_pairs(es: Seq<(String, Doc)>) -> Seq<(Seq<char>, Seq<char>)> {
    es.map_values(|e: (String, Doc)| (e.0@, text_of(e.1)))
}

/// `d` is the serialised form of a record whose fields are `fields`: a
/// mapping with one text entry per field, in order.
pub open spec fn item_doc_matches(fields: Seq<(Seq<char>, Seq<char>)>, d: Doc) -> bool {
    &&& d is Mapping
    &&& entries_of(d).len() == fields.len()
    &&& forall|i: int|
        0 <= i < fields.len() ==> (#[trigger] entries_of(d)[i]).0@ == fields[i].0 && entries_of(
            d,
        )[i].1 is Text && text_of(entries_of(d)[i].1) == fields[i].1
}

/// What parsing a record document yields: the fields stored pair by pair,
/// provided the document is a mapping of text values that carries `type`
/// and that kind's required keys; otherwise nothing.
pub open spec fn parse_item(d: Doc) -> Option<Seq<(Seq<char>, Seq<char>)>> {
    if !(d is Mapping) {
        None
    } else if !all_text(entries_of(d)) {
        None
    } else {
        let fs = set_pairs(Seq::empty(), doc_text_pairs(entries_of(d)));
        if !has_key(fs, "type"@) {
            None
        } else if !required_present(fs, value_of(fs, "type"@)) {
            None
        } else {
            Some(fs)
        }
    }
}

/// One conversion task: a mapping from field names to string values.
pub struct ToDoItem {
    /// The fields in insertion order; keys are unique once built by this
    /// module's operations.
    pub fields: Vec<(String, String)>,
}

impl View for ToDoItem {
    type V = Map<Seq<char>, Seq<char>>;

    open spec fn view(&self) -> Map<Seq<char>, Seq<char>> {
        kv_map(self.deep())
    }
}

impl ToDoItem {
    /// The fields in order, as character sequences.
    pub open spec fn deep(&self) -> Seq<(Seq<char>, Seq<char>)> {
        pairs_view(self.fields@)
    }

    /// Well-formed: no field name occurs twice.
    pub open spec fn wf(&self) -> bool {
        unique_keys(self.deep())
    }

    /// The record carries `type` and every key its kind requires: such a
    /// record survives a serialisation round trip.
    pub open spec fn valid(&self) -> bool {
        has_key(self.deep(), "type"@) && required_present(
            self.deep(),
            value_of(self.deep(), "type"@),
        )
    }

    /// Store `value` under `key`, replacing in place or appending.
    pub fn set_field(&mut self, key: &str, value: &str)
        requires
            old(self).wf(),
        ensures
            final(self).wf(),
            final(self).deep() == set_key(old(self).deep(), key@, value@),
            final(self)@ == old(self)@.insert(key@, value@),
    {
        proof {
            lemma_set_key(old(self).deep(), key@, value@);
        }
        let mut i: usize = 0;
        while i < self.fields.len()
            invariant
                *self == *old(self),
                old(self).wf(),
                0 <= i <= self.fields@.len(),
                forall|j: int| 0 <= j < i ==> (#[trigger] self.deep()[j]).0 != key@,
            decreases self.fields@.len() - i,
        {
            if str_eq(self.fields[i].0.as_str(), key) {
                proof {
                    assert(self.deep()[i as int].0 == key@);
                    lemma_key_at(self.deep(), i as int);
                }
                self.fields.set(i, (key.to_owned(), value.to_owned()));
                proof {
                    assert(final(self).deep() =~= set_key(old(self).deep(), key@, value@));
                    lemma_set_key(old(self).deep(), key@, value@);
                }
                return ;
            }
            i += 1;
        }
        proof {
            assert(!has_key(self.deep(), key@));
        }
        self.fields.push((key.to_owned(), value.to_owned()));
        proof {
            assert(final(self).deep() =~= old(self).deep().push((key@, value@)));
        }
    }

    /// Whether a field named `key` is present.
    pub fn has_field(&self, key: &str) -> (r: bool)
        ensures
            r == has_key(self.deep(), key@),
    {
        let mut i: usize = 0;
        while i < self.fields.len()
            invariant
                0 <= i <= self.fields@.len(),
                forall|j: int| 0 <= j < i ==> (#[trigger] self.deep()[j]).0 != key@,
            decreases self.fields@.len() - i,
        {
            if str_eq(self.fields[i].0.as_str(), key) {
                proof {
                    assert(self.deep()[i as int].0 == key@);
                }
                return true;
            }
            i += 1;
        }
        false
    }

    /// The value of the field named `key`, when present.
    pub fn get(&self, key: &str) -> (r: Option<&str>)
        requires
            self.wf(),
        ensures
            r is Some <==> self@.contains_key(key@),
            r matches Some(v) ==> v@ == self@[key@],
    {
        let mut i: usize = 0;
        while i < self.fields.len()
            invariant
                self.wf(),
                0 <= i <= self.fields@.len(),
                forall|j: int| 0 <= j < i ==> (#[trigger] self.deep()[j]).0 != key@,
            decreases self.fields@.len() - i,
        {
            if str_eq(self.fields[i].0.as_str(), key) {
                proof {
                    assert(self.deep()[i as int].0 == key@);
                    lemma_key_at(self.deep(), i as int);
                }
                return Some(self.fields[i].1.as_str());
            }
            i += 1;
        }
        proof {
            assert(!has_key(self.deep(), key@));
        }
        None
    }

    /// An identical copy of the record.
    pub fn duplicate(&self) -> (r: ToDoItem)
        ensures
            r.fields@ == self.fields@,
            r.deep() == self.deep(),
            r.wf() == self.wf(),
    {
        let mut fields: Vec<(String, String)> = Vec::new();
        let mut i: usize = 0;
        while i < self.fields.len()
            invariant
                0 <= i <= self.fields@.len(),
                fields@.len() == i,
                forall|j: int| 0 <= j < i ==> #[trigger] fields@[j] == self.fields@[j],
            decreases self.fields@.len() - i,
        {
            let pair = (self.fields[i].0.clone(), self.fields[i].1.clone());
            proof {
                assert(pair =~= self.fields@[i as int]);
            }
            fields.push(pair);
            i += 1;
        }
        proof {
            assert(fields@ =~= self.fields@);
        }
        ToDoItem { fields }
    }

    /// Build a record of kind `kind` from the given fields, then fill the
    /// default `status`, `reason` and `info` where absent. Never validates:
    /// a record missing its required keys is built all the same.
    pub fn new(kind: &str, fields: Vec<(&str, &str)>) -> (r: ToDoItem)
        ensures
            r.wf(),
            r.deep() == construct_pairs(
                kind@,
                fields@.map_values(|p: (&str, &str)| (p.0@, p.1@)),
            ),
    {
        let ghost fs = fields@.map_values(|p: (&str, &str)| (p.0@, p.1@));
        let mut item = ToDoItem { fields: Vec::new() };
        item.fields.push(("type".to_owned(), kind.to_owned()));
        proof {
            assert(item.deep() =~= seq![("type"@, kind@)]);
            assert(item.wf());
            assert(fs.take(0) =~= Seq::<(Seq<char>, Seq<char>)>::empty());
        }
        let mut i: usize = 0;
        while i < fields.len()
            invariant
                item.wf(),
                0 <= i <= fields@.len(),
                fs.len() == fields@.len(),
                fs == fields@.map_values(|p: (&str, &str)| (p.0@, p.1@)),
                item.deep() == set_pairs(seq![("type"@, kind@)], fs.take(i as int)),
            decreases fields@.len() - i,
        {
            item.set_field(fields[i].0, fields[i].1);
            proof {
                assert(fs.take(i + 1).drop_last() =~= fs.take(i as int));
                assert(fs.take(i + 1).last() == fs[i as int]);
                assert(fs[i as int] == (fields@[i as int].0@, fields@[i as int].1@));
            }
            i += 1;
        }
        proof {
            assert(fs.take(fs.len() as int) =~= fs);
        }
        if !item.has_field("status") {
            proof {
                lemma_push_fresh(item.deep(), "status"@, "Open"@);
            }
            item.fields.push(("status".to_owned(), "Open".to_owned()));
            proof {
                assert(item.deep() =~= add_default(
                    set_pairs(seq![("type"@, kind@)], fs),
                    "status"@,
                    "Open"@,
                ));
            }
        }
        if !item.has_field("reason") {
            proof {
                lemma_push_fresh(item.deep(), "reason"@, "New conversion task"@);
            }
            item.fields.push(("reason".to_owned(), "New conversion task".to_owned()));
            proof {
                assert(item.deep() =~= add_default(
                    add_default(set_pairs(seq![("type"@, kind@)], fs), "status"@, "Open"@),
                    "reason"@,
                    "New conversion task"@,
                ));
            }
        }
        if !item.has_field("info") {
            proof {
                lemma_push_fresh(item.deep(), "info"@, ""@);
            }
            item.fields.push(("info".to_owned(), "".to_owned()));
            proof {
                assert(item.deep() =~= construct_pairs(kind@, fs));
            }
        }
        item
    }

    /// The table of required keys, by kind; a kind outside the table
    /// requires nothing.
    pub fn required_keys(kind: &str) -> (r: Vec<&'static str>)
        ensures
            r@.map_values(|s: &str| s@) == required_keys_spec(kind@),
    {
        let r: Vec<&'static str> = if str_eq(kind, "Shader") || str_eq(kind, "Material") {
            vec!["unity_path", "godot_path", "instruction"]
        } else if str_eq(kind, "Prefab") || str_eq(kind, "Animation") || str_eq(kind, "Script")
            || str_eq(kind, "Other") {
            vec!["unity_path", "godot_path"]
        } else {
            Vec::new()
        };
        proof {
            assert(r@.map_values(|s: &str| s@) =~= required_keys_spec(kind@));
        }
        r
    }

    /// The record's kind: its `type` field, when present.
    pub fn kind(&self) -> (r: Option<&str>)
        requires
            self.wf(),
        ensures
            r is Some <==> self@.contains_key("type"@),
            r matches Some(v) ==> v@ == self@["type"@],
    {
        self.get("type")
    }

    /// The record's status field, when present.
    pub fn status(&self) -> (r: Option<&str>)
        requires
            self.wf(),
        ensures
            r is Some <==> self@.contains_key("status"@),
            r matches Some(v) ==> v@ == self@["status"@],
    {
        self.get("status")
    }

    /// Overwrite the status; any status may follow any other.
    pub fn set_status(&mut self, new_status: &str)
        requires
            old(self).wf(),
        ensures
            final(self).wf(),
            final(self).deep() == set_key(old(self).deep(), "status"@, new_status@),
            final(self)@ == old(self)@.insert("status"@, new_status@),
    {
        self.set_field("status", new_status);
    }

    /// Set the status to `Done`.
    pub fn mark_done(&mut self)
        requires
            old(self).wf(),
        ensures
            final(self).wf(),
            final(self).deep() == set_key(old(self).deep(), "status"@, "Done"@),
            final(self)@ == old(self)@.insert("status"@, "Done"@),
    {
        self.set_status("Done");
    }

    /// Set the status to `Failed`.
    pub fn mark_failed(&mut self)
        requires
            old(self).wf(),
        ensures
            final(self).wf(),
            final(self).deep() == set_key(old(self).deep(), "status"@, "Failed"@),
            final(self)@ == old(self)@.insert("status"@, "Failed"@),
    {
        self.set_status("Failed");
    }

    /// Set the status back to `Open`.
    pub fn reopen(&mut self)
        requires
            old(self).wf(),
        ensures
            final(self).wf(),
            final(self).deep() == set_key(old(self).deep(), "status"@, "Open"@),
            final(self)@ == old(self)@.insert("status"@, "Open"@),
    {
        self.set_status("Open");
    }

    /// The value under `key`, or `dflt` when the key is absent.
    pub open spec fn field_or(&self, key: Seq<char>, dflt: Seq<char>) -> Seq<char> {
        if kv_map(self.deep()).contains_key(key) {
            kv_map(self.deep())[key]
        } else {
            dflt
        }
    }

    /// What the record's display line reads: kind, Godot path and status,
    /// with stand-ins for absent fields.
    pub open spec fn render_spec(&self) -> Seq<char> {
        "["@ + self.field_or("type"@, "Unknown"@) + "] → "@ + self.field_or(
            "godot_path"@,
            "<no path>"@,
        ) + " ("@ + self.field_or("status"@, "unprocessed"@) + ")"@
    }

    /// The record's one-line rendering, per `render_spec`.
    pub fn render(&self) -> (r: String)
        requires
            self.wf(),
        ensures
            r@ == self.render_spec(),
    {
        let mut out = "[".to_owned();
        match self.get("type") {
            Some(v) => out.append(v),
            None => out.append("Unknown"),
        }
        out.append("] → ");
        match self.get("godot_path") {
            Some(v) => out.append(v),
            None => out.append("<no path>"),
        }
        out.append(" (");
        match self.get("status") {
            Some(v) => out.append(v),
            None => out.append("unprocessed"),
        }
        out.append(")");
        out
    }

    /// The record as a document: one mapping entry per field, in order.
    pub fn to_yaml(&self) -> (r: Doc)
        ensures
            item_doc_matches(self.deep(), r),
    {
        let mut es: Vec<(String, Doc)> = Vec::new();
        let mut i: usize = 0;
        while i < self.fields.len()
            invariant
                0 <= i <= self.fields@.len(),
                es@.len() == i,
                forall|j: int|
                    0 <= j < i ==> (#[trigger] es@[j]).0@ == self.deep()[j].0 && es@[j].1 is Text
                        && text_of(es@[j].1) == self.deep()[j].1,
            decreases self.fields@.len() - i,
        {
            es.push((self.fields[i].0.clone(), Doc::Text(self.fields[i].1.clone())));
            i += 1;
        }
        Doc::Mapping(es)
    }

    /// Read a record back from a document. The document must be a mapping
    /// of text values that carries `type` and every key required for that
    /// kind; any other document yields nothing, per `parse_item`.
    #[verifier::loop_isolation(false)]
    pub fn from_yaml(d: &Doc) -> (r: Option<ToDoItem>)
        ensures
            r is Some <==> parse_item(*d) is Some,
            r matches Some(item) ==> item.wf() && parse_item(*d) == Some(item.deep()),
    {
        match d {
            Doc::Mapping(es) => {
                let mut item = ToDoItem { fields: Vec::new() };
                proof {
                    assert(item.deep() =~= Seq::<(Seq<char>, Seq<char>)>::empty());
                    assert(doc_text_pairs(es@).take(0) =~= Seq::<
                        (Seq<char>, Seq<char>),
                    >::empty());
                }
                let mut i: usize = 0;
                while i < es.len()
                    invariant
                        item.wf(),
                        0 <= i <= es@.len(),
                        forall|j: int| 0 <= j < i ==> (#[trigger] es@[j]).1 is Text,
                        item.deep() == set_pairs(
                            Seq::empty(),
                            doc_text_pairs(es@).take(i as int),
                        ),
                    decreases es@.len() - i,
                {
                    match &es[i].1 {
                        Doc::Text(t) => {
                            let t = t.clone();
                            item.set_field(es[i].0.as_str(), t.as_str());
                        },
                        _ => {
                            proof {
                                assert(!all_text(es@));
                            }
                            return None;
                        },
                    }
                    proof {
                        assert(doc_text_pairs(es@).take(i + 1).drop_last() =~= doc_text_pairs(
                            es@,
                        ).take(i as int));
                        assert(doc_text_pairs(es@).take(i + 1).last() == doc_text_pairs(es@)[
                            i as int]);
                    }
                    i += 1;
                }
                proof {
                    assert(doc_text_pairs(es@).take(es@.len() as int) =~= doc_text_pairs(es@));
                    assert(all_text(es@));
                }
                let kind = match item.get("type") {
                    Some(k) => k,
                    None => {
                        return None;
                    },
                };
                let req = ToDoItem::required_keys(kind);
                let ghost fs = item.deep();
                proof {
                    assert(req@.map_values(|s: &str| s@) == required_keys_spec(kind@));
                    assert(kind@ == value_of(fs, "type"@));
                }
                let mut j: usize = 0;
                while j < req.len()
                    invariant
                        item.wf(),
                        fs == item.deep(),
                        req@.map_values(|s: &str| s@) == required_keys_spec(value_of(fs, "type"@)),
                        0 <= j <= req@.len(),
                        forall|jj: int|
                            0 <= jj < j ==> has_key(
                                fs,
                                #[trigger] required_keys_spec(value_of(fs, "type"@))[jj],
                            ),
                    decreases req@.len() - j,
                {
                    if !item.has_field(req[j]) {
                        proof {
                            assert(required_keys_spec(value_of(fs, "type"@))[j as int] == req@[
                                j as int]@);
                            assert(!required_present(fs, value_of(fs, "type"@)));
                        }
                        return None;
                    }
                    proof {
                        assert(required_keys_spec(value_of(fs, "type"@))[j as int] == req@[
                            j as int]@);
                    }
                    j += 1;
                }
                proof {
                    assert(required_present(fs, value_of(fs, "type"@)));
                }
                Some(item)
            },
            _ => None,
        }
    }

    /// Overwrite the free-text info field.
    pub fn set_info(&mut self, msg: &str)
        requires
            old(self).wf(),
        ensures
            final(self).wf(),
            final(self).deep() == set_key(old(self).deep(), "info"@, msg@),
            final(self)@ == old(self)@.insert("info"@, msg@),
    {
        self.set_field("info", msg);
    }
}

/// `d` is the serialised form of a collection whose deep entries are
/// `deep`: a mapping whose single entry maps `todo_list` to the mapping
/// from GUIDs to record documents, in order.
pub open spec fn list_doc_matches(deep: Seq<(Seq<char>, Seq<(Seq<char>, Seq<char>)>)>, d: Doc) -> bool {
    &&& d is Mapping
    &&& entries_of(d).len() == 1
    &&& entries_of(d)[0].0@ == "todo_list"@
    &&& entries_of(d)[0].1 is Mapping
    &&& entries_of(entries_of(d)[0].1).len() == deep.len()
    &&& forall|i: int|
        0 <= i < deep.len() ==> (#[trigger] entries_of(entries_of(d)[0].1)[i]).0@ == deep[i].0
            && item_doc_matches(deep[i].1, entries_of(entries_of(d)[0].1)[i].1)
}

/// What loading the GUID-to-record entries yields: each record that parses
/// is stored under its GUID, in order; one that does not parse is dropped.
pub open spec fn parse_entries(es: Seq<(String, Doc)>) -> Seq<
    (Seq<char>, Seq<(Seq<char>, Seq<char>)>),
>
    decreases es.len(),
{
    if es.len() == 0 {
        Seq::empty()
    } else {
        let prev = parse_entries(es.drop_last());
        match parse_item(es.last().1) {
            Option::Some(fs) => set_key(prev, es.last().0@, fs),
            Option::None => prev,
        }
    }
}

/// What loading a whole document yields: the parsed entries of the mapping
/// under `todo_list`, or nothing at all when that key is absent or holds
/// no mapping.
pub open spec fn parse_list(d: Doc) -> Seq<(Seq<char>, Seq<(Seq<char>, Seq<char>)>)> {
    match doc_lookup(entries_of(d), "todo_list"@) {
        Option::Some(t) => if t is Mapping {
            parse_entries(entries_of(t))
        } else {
            Seq::empty()
        },
        Option::None => Seq::empty(),
    }
}

/// The GUID-keyed collection of records: the unit of persistence.
pub struct ToDoList {
    /// The records under their GUIDs, in insertion order; GUIDs are unique
    /// once built by this module's operations.
    pub items: Vec<(String, ToDoItem)>,
}

impl ToDoList {
    /// The entries in order, as character sequences: GUID and record fields.
    pub open spec fn deep(&self) -> Seq<(Seq<char>, Seq<(Seq<char>, Seq<char>)>)> {
        self.items@.map_values(|e: (String, ToDoItem)| (e.0@, e.1.deep()))
    }

    /// Well-formed: GUIDs are unique and every record is well-formed.
    pub open spec fn wf(&self) -> bool {
        &&& unique_keys(self.deep())
        &&& forall|i: int| 0 <= i < self.items@.len() ==> (#[trigger] self.items@[i]).1.wf()
    }

    /// Every record carries `type` and its kind's required keys.
    pub open spec fn all_valid(&self) -> bool {
        forall|i: int| 0 <= i < self.items@.len() ==> (#[trigger] self.items@[i]).1.valid()
    }

    /// An empty collection.
    pub fn new() -> (r: ToDoList)
        ensures
            r.wf(),
            r.items@.len() == 0,
    {
        let r = ToDoList { items: Vec::new() };
        proof {
            assert(r.deep() =~= Seq::<(Seq<char>, Seq<(Seq<char>, Seq<char>)>)>::empty());
        }
        r
    }

    /// How many records the collection holds.
    pub fn len(&self) -> (r: usize)
        ensures
            r == self.items@.len(),
    {
        self.items.len()
    }

    /// Whether a record is stored under `guid`.
    pub fn contains(&self, guid: &str) -> (r: bool)
        ensures
            r == has_key(self.deep(), guid@),
    {
        let mut i: usize = 0;
        while i < self.items.len()
            invariant
                0 <= i <= self.items@.len(),
                forall|j: int| 0 <= j < i ==> (#[trigger] self.deep()[j]).0 != guid@,
            decreases self.items@.len() - i,
        {
            if str_eq(self.items[i].0.as_str(), guid) {
                proof {
                    assert(self.deep()[i as int].0 == guid@);
                }
                return true;
            }
            i += 1;
        }
        false
    }

    /// Store `item` under `guid`, replacing any record already there.
    pub fn insert(&mut self, guid: &str, item: ToDoItem)
        requires
            old(self).wf(),
            item.wf(),
        ensures
            final(self).wf(),
            final(self).deep() == set_key(old(self).deep(), guid@, item.deep()),
    {
        proof {
            lemma_set_key(old(self).deep(), guid@, item.deep());
        }
        let mut i: usize = 0;
        while i < self.items.len()
            invariant
                *self == *old(self),
                old(self).wf(),
                item.wf(),
                0 <= i <= self.items@.len(),
                forall|j: int| 0 <= j < i ==> (#[trigger] self.deep()[j]).0 != guid@,
            decreases self.items@.len() - i,
        {
            if str_eq(self.items[i].0.as_str(), guid) {
                proof {
                    assert(self.deep()[i as int].0 == guid@);
                    lemma_key_at(self.deep(), i as int);
                    lemma_set_key(old(self).deep(), guid@, item.deep());
                }
                self.items.set(i, (guid.to_owned(), item));
                proof {
                    assert(final(self).deep() =~= set_key(old(self).deep(), guid@, item.deep()));
                }
                return ;
            }
            i += 1;
        }
        proof {
            assert(!has_key(self.deep(), guid@));
        }
        self.items.push((guid.to_owned(), item));
        proof {
            assert(final(self).deep() =~= old(self).deep().push((guid@, item.deep())));
        }
    }

    /// Set the status and info of the record under `guid`; when no record
    /// is there, the collection stands exactly as it was.
    pub fn update_status(&mut self, guid: &str, status: &str, info: &str)
        requires
            old(self).wf(),
        ensures
            final(self).wf(),
            !has_key(old(self).deep(), guid@) ==> final(self).items@ == old(self).items@,
            has_key(old(self).deep(), guid@) ==> final(self).deep() == set_key(
                old(self).deep(),
                guid@,
                set_key(
                    set_key(value_of(old(self).deep(), guid@), "status"@, status@),
                    "info"@,
                    info@,
                ),
            ),
    {
        let mut i: usize = 0;
        while i < self.items.len()
            invariant
                *self == *old(self),
                old(self).wf(),
                0 <= i <= self.items@.len(),
                forall|j: int| 0 <= j < i ==> (#[trigger] self.deep()[j]).0 != guid@,
            decreases self.items@.len() - i,
        {
            if str_eq(self.items[i].0.as_str(), guid) {
                proof {
                    assert(self.deep()[i as int].0 == guid@);
                    lemma_key_at(self.deep(), i as int);
                }
                let mut item = self.items[i].1.duplicate();
                item.set_status(status);
                item.set_info(info);
                proof {
                    lemma_set_key(old(self).deep(), guid@, item.deep());
                }
                let g = self.items[i].0.clone();
                self.items.set(i, (g, item));
                proof {
                    assert(final(self).deep() =~= set_key(
                        old(self).deep(),
                        guid@,
                        set_key(
                            set_key(value_of(old(self).deep(), guid@), "status"@, status@),
                            "info"@,
                            info@,
                        ),
                    ));
                }
                return ;
            }
            i += 1;
        }
        proof {
            assert(!has_key(self.deep(), guid@));
        }
    }

    /// Set the record under `guid` to `Done`, noting that the conversion
    /// was verified; a no-op when `guid` is absent.
    pub fn mark_done(&mut self, guid: &str)
        requires
            old(self).wf(),
        ensures
            final(self).wf(),
            !has_key(old(self).deep(), guid@) ==> final(self).items@ == old(self).items@,
            has_key(old(self).deep(), guid@) ==> final(self).deep() == set_key(
                old(self).deep(),
                guid@,
                set_key(
                    set_key(value_of(old(self).deep(), guid@), "status"@, "Done"@),
                    "info"@,
                    "✅ Conversion verified in Godot"@,
                ),
            ),
    {
        self.update_status(guid, "Done", "✅ Conversion verified in Godot");
    }

    /// The collection as a document: a single `todo_list` entry over the
    /// GUID-to-record mapping.
    pub fn to_yaml(&self) -> (r: Doc)
        ensures
            list_doc_matches(self.deep(), r),
    {
        let mut inner: Vec<(String, Doc)> = Vec::new();
        let mut i: usize = 0;
        while i < self.items.len()
            invariant
                0 <= i <= self.items@.len(),
                inner@.len() == i,
                forall|j: int|
                    0 <= j < i ==> (#[trigger] inner@[j]).0@ == self.deep()[j].0
                        && item_doc_matches(self.deep()[j].1, inner@[j].1),
            decreases self.items@.len() - i,
        {
            inner.push((self.items[i].0.clone(), self.items[i].1.to_yaml()));
            i += 1;
        }
        let mut root: Vec<(String, Doc)> = Vec::new();
        root.push(("todo_list".to_owned(), Doc::Mapping(inner)));
        Doc::Mapping(root)
    }

    /// Load a collection from a document, per `parse_list`: records that
    /// fail to parse are dropped, and a document without a `todo_list`
    /// mapping yields an empty collection.
    #[verifier::loop_isolation(false)]
    pub fn from_yaml(d: &Doc) -> (r: ToDoList)
        ensures
            r.wf(),
            r.deep() == parse_list(*d),
    {
        let mut list = ToDoList::new();
        proof {
            assert(list.deep() =~= Seq::<(Seq<char>, Seq<(Seq<char>, Seq<char>)>)>::empty());
        }
        match d {
            Doc::Mapping(root) => {
                match doc_get(root, "todo_list") {
                    Some(t) => match t {
                        Doc::Mapping(inner) => {
                            let mut i: usize = 0;
                            proof {
                                assert(inner@.take(0) =~= Seq::<(String, Doc)>::empty());
                            }
                            while i < inner.len()
                                invariant
                                    list.wf(),
                                    0 <= i <= inner@.len(),
                                    list.deep() == parse_entries(inner@.take(i as int)),
                                decreases inner@.len() - i,
                            {
                                match ToDoItem::from_yaml(&inner[i].1) {
                                    Some(item) => {
                                        list.insert(inner[i].0.as_str(), item);
                                    },
                                    None => {},
                                }
                                proof {
                                    assert(inner@.take(i + 1).drop_last() =~= inner@.take(
                                        i as int,
                                    ));
                                    assert(inner@.take(i + 1).last() == inner@[i as int]);
                                }
                                i += 1;
                            }
                            proof {
                                assert(inner@.take(inner@.len() as int) =~= inner@);
                            }
                        },
                        _ => {},
                    },
                    None => {},
                }
            },
            _ => {},
        }
        list
    }
}

/// Storing a sequence of uniquely keyed pairs into an empty sequence
/// reproduces it.
proof fn lemma_set_pairs_id(fields: Seq<(Seq<char>, Seq<char>)>)
    requires
        unique_keys(fields),
    ensures
        set_pairs(Seq::empty(), fields) == fields,
    decreases fields.len(),
{
    if fields.len() == 0 {
        assert(set_pairs(Seq::empty(), fields) =~= fields);
    } else {
        let prefix = fields.drop_last();
        assert(unique_keys(prefix));
        lemma_set_pairs_id(prefix);
        assert(!has_key(prefix, fields.last().0)) by {
            if has_key(prefix, fields.last().0) {
                let j = key_index(prefix, fields.last().0);
                assert(fields[j].0 == fields[fields.len() - 1].0);
            }
        }
        lemma_push_fresh(prefix, fields.last().0, fields.last().1);
        assert(prefix.push(fields.last()) =~= fields);
    }
}

/// A record that carries `type` and its required keys parses back from its
/// own document to exactly its fields.
pub proof fn lemma_item_round_trip(fields: Seq<(Seq<char>, Seq<char>)>, d: Doc)
    requires
        unique_keys(fields),
        has_key(fields, "type"@),
        required_present(fields, value_of(fields, "type"@)),
        item_doc_matches(fields, d),
    ensures
        parse_item(d) == Some(fields),
{
    assert(all_text(entries_of(d)));
    assert(doc_text_pairs(entries_of(d)) =~= fields);
    lemma_set_pairs_id(fields);
}

/// Loading entries that serialise a uniquely keyed, valid collection
/// reproduces its deep entries.
proof fn lemma_entries_round_trip(
    deep: Seq<(Seq<char>, Seq<(Seq<char>, Seq<char>)>)>,
    es: Seq<(String, Doc)>,
    n: int,
)
    requires
        unique_keys(deep),
        es.len() == deep.len(),
        0 <= n <= deep.len(),
        forall|i: int|
            0 <= i < deep.len() ==> (#[trigger] es[i]).0@ == deep[i].0 && parse_item(es[i].1)
                == Some(deep[i].1),
    ensures
        parse_entries(es.take(n)) == deep.take(n),
    decreases n,
{
    if n == 0 {
        assert(es.take(0) =~= Seq::<(String, Doc)>::empty());
        assert(parse_entries(es.take(0)) =~= deep.take(0));
    } else {
        lemma_entries_round_trip(deep, es, n - 1);
        let t = es.take(n);
        assert(t.drop_last() =~= es.take(n - 1));
        assert(t.last() == es[n - 1]);
        assert(unique_keys(deep.take(n - 1)));
        assert(!has_key(deep.take(n - 1), deep[n - 1].0)) by {
            if has_key(deep.take(n - 1), deep[n - 1].0) {
                let j = key_index(deep.take(n - 1), deep[n - 1].0);
                assert(deep[j].0 == deep[n - 1].0);
            }
        }
        lemma_push_fresh(deep.take(n - 1), deep[n - 1].0, deep[n - 1].1);
        assert(deep.take(n - 1).push(deep[n - 1]) =~= deep.take(n));
    }
}

/// Round-trip law: loading the document a collection serialises to
/// reproduces the collection — the same GUIDs in the same order, each with
/// the same record fields — whenever every record is valid (carries `type`
/// and its kind's required keys). Combined with the contracts of `to_yaml`
/// and `from_yaml`, `ToDoList::from_yaml(&l.to_yaml())` has deep entries
/// equal to those of `l`.
pub proof fn lemma_round_trip(l: &ToDoList, d: Doc)
    requires
        l.wf(),
        l.all_valid(),
        list_doc_matches(l.deep(), d),
    ensures
        parse_list(d) == l.deep(),
{
    let root = entries_of(d);
    assert(doc_lookup(root, "todo_list"@) == Some(root[0].1)) by {
        assert(root.len() == 1);
        assert(root[0].0@ == "todo_list"@);
    }
    let es = entries_of(root[0].1);
    assert forall|i: int| 0 <= i < l.deep().len() implies (#[trigger] es[i]).0@ == l.deep()[i].0
        && parse_item(es[i].1) == Some(l.deep()[i].1) by {
        assert(l.items@[i].1.wf());
        assert(l.items@[i].1.valid());
        assert(l.deep()[i].1 == l.items@[i].1.deep());
        lemma_item_round_trip(l.deep()[i].1, es[i].1);
    }
    lemma_entries_round_trip(l.deep(), es, l.deep().len() as int);
    assert(es.take(es.len() as int) =~= es);
    assert(l.deep().take(l.deep().len() as int) =~= l.deep());
}

/// Storing a pair keeps every key that was already present, and makes its
/// own key present.
proof fn lemma_set_key_keeps(
    s: Seq<(Seq<char>, Seq<char>)>,
    k: Seq<char>,
    v: Seq<char>,
    k2: Seq<char>,
)
    requires
        has_key(s, k2) || k2 == k,
    ensures
        has_key(set_key(s, k, v), k2),
{
    let s2 = set_key(s, k, v);
    if has_key(s, k) {
        let i = key_index(s, k);
        if k2 == k {
            assert(s2[i].0 == k2);
        } else {
            let j = key_index(s, k2);
            assert(s[j].0 == k2);
            assert(j != i);
            assert(s2[j] == s[j]);
        }
    } else {
        if k2 == k {
            assert(s2[s.len() as int].0 == k2);
        } else {
            let j = key_index(s, k2);
            assert(s2[j] == s[j]);
        }
    }
}

/// Every key among the stored pairs becomes present.
proof fn lemma_set_pairs_adds(
    s: Seq<(Seq<char>, Seq<char>)>,
    us: Seq<(Seq<char>, Seq<char>)>,
    k: Seq<char>,
)
    requires
        has_key(us, k),
    ensures
        has_key(set_pairs(s, us), k),
    decreases us.len(),
{
    let j = key_index(us, k);
    assert(us[j].0 == k);
    if j == us.len() - 1 {
        lemma_set_key_keeps(set_pairs(s, us.drop_last()), us.last().0, us.last().1, k);
    } else {
        assert(has_key(us.drop_last(), k)) by {
            assert(us.drop_last()[j].0 == k);
        }
        lemma_set_pairs_adds(s, us.drop_last(), k);
        lemma_set_key_keeps(set_pairs(s, us.drop_last()), us.last().0, us.last().1, k);
    }
}

/// Storing pairs that never carry `k` leaves the value under `k` alone.
proof fn lemma_set_pairs_value(
    s: Seq<(Seq<char>, Seq<char>)>,
    us: Seq<(Seq<char>, Seq<char>)>,
    k: Seq<char>,
)
    requires
        unique_keys(s),
        has_key(s, k),
        !has_key(us, k),
    ensures
        unique_keys(set_pairs(s, us)),
        has_key(set_pairs(s, us), k),
        value_of(set_pairs(s, us), k) == value_of(s, k),
    decreases us.len(),
{
    if us.len() == 0 {
    } else {
        assert(!has_key(us.drop_last(), k)) by {
            if has_key(us.drop_last(), k) {
                let j = key_index(us.drop_last(), k);
                assert(us[j].0 == k);
            }
        }
        lemma_set_pairs_value(s, us.drop_last(), k);
        let prev = set_pairs(s, us.drop_last());
        assert(us.last().0 != k) by {
            assert(us[us.len() - 1].0 == us.last().0);
        }
        lemma_set_key(prev, us.last().0, us.last().1);
        let s2 = set_key(prev, us.last().0, us.last().1);
        assert(kv_map(s2)[k] == kv_map(prev)[k]);
        let j = key_index(prev, k);
        lemma_key_at(prev, j);
        let j2 = key_index(s2, k);
        assert(s2[j2].0 == k);
        lemma_key_at(s2, j2);
    }
}

/// Filling a default under another key leaves the value under `k` alone.
proof fn lemma_add_default_value(
    s: Seq<(Seq<char>, Seq<char>)>,
    kd: Seq<char>,
    vd: Seq<char>,
    k: Seq<char>,
)
    requires
        unique_keys(s),
        has_key(s, k),
        k != kd,
    ensures
        unique_keys(add_default(s, kd, vd)),
        has_key(add_default(s, kd, vd), k),
        value_of(add_default(s, kd, vd), k) == value_of(s, k),
        has_key(add_default(s, kd, vd), kd),
{
    if has_key(s, kd) {
    } else {
        lemma_push_fresh(s, kd, vd);
        lemma_set_key(s, kd, vd);
        let s2 = s.push((kd, vd));
        assert(kv_map(s2) == kv_map(s).insert(kd, vd));
        assert(kv_map(s2).contains_key(k));
        assert(has_key(s2, k));
        assert(kv_map(s2)[k] == kv_map(s)[k]);
        let j = key_index(s, k);
        lemma_key_at(s, j);
        let j2 = key_index(s2, k);
        assert(s2[j2].0 == k);
        lemma_key_at(s2, j2);
        assert(s2[s.len() as int].0 == kd);
    }
}

/// A record built with every key its kind requires among its fields is
/// valid: it carries `type` with the given kind, its required keys, and
/// the default `status`, `reason` and `info` keys. With
/// `lemma_item_round_trip`, such a record parses back from its own
/// document unchanged, defaults and all.
pub proof fn lemma_construct_valid(kind: Seq<char>, fields: Seq<(Seq<char>, Seq<char>)>)
    requires
        !has_key(fields, "type"@),
        forall|i: int|
            0 <= i < required_keys_spec(kind).len() ==> has_key(
                fields,
                #[trigger] required_keys_spec(kind)[i],
            ),
    ensures
        has_key(construct_pairs(kind, fields), "type"@),
        value_of(construct_pairs(kind, fields), "type"@) == kind,
        required_present(construct_pairs(kind, fields), kind),
        has_key(construct_pairs(kind, fields), "status"@),
        has_key(construct_pairs(kind, fields), "reason"@),
        has_key(construct_pairs(kind, fields), "info"@),
{
    reveal_strlit("unity_path");
    reveal_strlit("godot_path");
    reveal_strlit("instruction");
    reveal_strlit("type");
    reveal_strlit("status");
    reveal_strlit("reason");
    reveal_strlit("info");
    assert("type"@ != "status"@ && "type"@ != "reason"@ && "reason"@ != "info"@ && "status"@
        != "info"@) by {
        assert("type"@.len() == 4 && "status"@.len() == 6 && "reason"@.len() == 6 && "info"@.len()
            == 4);
    }
    assert("type"@ != "info"@ && "status"@ != "reason"@) by {
        assert("type"@[0] == 't' && "info"@[0] == 'i' && "status"@[0] == 's' && "reason"@[0]
            == 'r');
    }
    let base = seq![("type"@, kind)];
    assert(unique_keys(base));
    assert(base[0].0 == "type"@);
    lemma_key_at(base, 0);
    let s1 = set_pairs(base, fields);
    lemma_set_pairs_value(base, fields, "type"@);
    assert forall|i: int|
        0 <= i < required_keys_spec(kind).len() implies has_key(
        s1,
        #[trigger] required_keys_spec(kind)[i],
    ) by {
        lemma_set_pairs_adds(base, fields, required_keys_spec(kind)[i]);
    }
    let s2 = add_default(s1, "status"@, "Open"@);
    let s3 = add_default(s2, "reason"@, "New conversion task"@);
    let cp = add_default(s3, "info"@, ""@);
    lemma_add_default_value(s1, "status"@, "Open"@, "type"@);
    lemma_add_default_value(s2, "reason"@, "New conversion task"@, "type"@);
    lemma_add_default_value(s3, "info"@, ""@, "type"@);
    assert(required_present(cp, kind)) by {
        assert forall|i: int|
            0 <= i < required_keys_spec(kind).len() implies has_key(
            cp,
            #[trigger] required_keys_spec(kind)[i],
        ) by {
            let k = required_keys_spec(kind)[i];
            assert(k == "unity_path"@ || k == "godot_path"@ || k == "instruction"@);
            assert(k.len() == 10 || k.len() == 11);
            lemma_add_default_value(s1, "status"@, "Open"@, k);
            lemma_add_default_value(s2, "reason"@, "New conversion task"@, k);
            lemma_add_default_value(s3, "info"@, ""@, k);
        }
    }
    assert(has_key(cp, "status"@)) by {
        lemma_add_default_value(s2, "reason"@, "New conversion task"@, "status"@);
        lemma_add_default_value(s3, "info"@, ""@, "status"@);
    }
    assert(has_key(cp, "reason"@)) by {
        lemma_add_default_value(s3, "info"@, ""@, "reason"@);
    }
}

/// Keys stored by `set_pairs` come from one of its two sequences.
proof fn lemma_set_pairs_keys(
    s: Seq<(Seq<char>, Seq<char>)>,
    us: Seq<(Seq<char>, Seq<char>)>,
    k: Seq<char>,
)
    requires
        has_key(set_pairs(s, us), k),
    ensures
        has_key(s, k) || has_key(us, k),
    decreases us.len(),
{
    if us.len() == 0 {
    } else {
        let prev = set_pairs(s, us.drop_last());
        if us.last().0 == k {
            assert(us[us.len() - 1].0 == k);
        } else {
            assert(has_key(prev, k)) by {
                let s2 = set_key(prev, us.last().0, us.last().1);
                let j = key_index(s2, k);
                assert(0 <= j < s2.len() && s2[j].0 == k);
                if has_key(prev, us.last().0) {
                    assert(s2[j] == prev[j] || j == key_index(prev, us.last().0));
                    assert(prev[j].0 == k);
                } else {
                    assert(j < prev.len());
                    assert(prev[j].0 == k);
                }
            }
            lemma_set_pairs_keys(s, us.drop_last(), k);
            if has_key(us.drop_last(), k) {
                let j = key_index(us.drop_last(), k);
                assert(us[j].0 == k);
            }
        }
    }
}

/// Construction never validates: building a record whose field list leaves
/// out a key its kind requires yields a record that lacks that key — the
/// defaults filled in (`type`, `status`, `reason`, `info`) are never
/// required keys.
pub proof fn lemma_new_skips_validation(
    kind: Seq<char>,
    fields: Seq<(Seq<char>, Seq<char>)>,
    k: Seq<char>,
)
    requires
        required_keys_spec(kind).contains(k),
        !has_key(fields, k),
    ensures
        !has_key(construct_pairs(kind, fields), k),
{
    assert(k == "unity_path"@ || k == "godot_path"@ || k == "instruction"@);
    reveal_strlit("unity_path");
    reveal_strlit("godot_path");
    reveal_strlit("instruction");
    reveal_strlit("type");
    reveal_strlit("status");
    reveal_strlit("reason");
    reveal_strlit("info");
    assert(k != "type"@ && k != "status"@ && k != "reason"@ && k != "info"@) by {
        assert(k.len() == 10 || k.len() == 11);
    }
    let base = set_pairs(seq![("type"@, kind)], fields);
    assert(!has_key(base, k)) by {
        if has_key(base, k) {
            lemma_set_pairs_keys(seq![("type"@, kind)], fields, k);
            if has_key(seq![("type"@, kind)], k) {
                let j = key_index(seq![("type"@, kind)], k);
                assert(seq![("type"@, kind)][j].0 == k);
            }
        }
    }
    let s1 = add_default(base, "status"@, "Open"@);
    let s2 = add_default(s1, "reason"@, "New conversion task"@);
    let s3 = add_default(s2, "info"@, ""@);
    assert(!has_key(s1, k)) by {
        if has_key(s1, k) && !has_key(base, "status"@) {
            let j = key_index(s1, k);
            assert(s1[j].0 == k);
            if j < base.len() {
                assert(base[j].0 == k);
            }
        }
    }
    assert(!has_key(s2, k)) by {
        if has_key(s2, k) && !has_key(s1, "reason"@) {
            let j = key_index(s2, k);
            assert(s2[j].0 == k);
            if j < s1.len() {
                assert(s1[j].0 == k);
            }
        }
    }
    assert(!has_key(s3, k)) by {
        if has_key(s3, k) && !has_key(s2, "info"@) {
            let j = key_index(s3, k);
            assert(s3[j].0 == k);
            if j < s2.len() {
                assert(s2[j].0 == k);
            }
        }
    }
}

} // verus!
