//! The search pass over a collection: a status filter and a query, plain
//! or regular-expression, applied to a haystack built from each record's
//! rendered line, its GUID and a dump of its fields. The regular-expression
//! engine is an outside collaborator, reached through trusted wrappers.

use vstd::prelude::*;
use crate::kv::kv_map;
use crate::text::{ascii_ci_eq, contains_seq, contains_str, eq_ignore_ascii_case_str};
use crate::todo_list::ToDoItem;
use crate::todo_list::ToDoList;

verus! {

/// Whether the regular-expression engine accepts `pat` as a pattern.
pub uninterp spec fn regex_accepts(pat: Seq<char>) -> bool;

/// Whether the pattern `pat` matches somewhere in `text`, as the engine
/// decides it.
pub uninterp spec fn regex_match(pat: Seq<char>, text: Seq<char>) -> bool;

/// Relies on regex::Regex::new: whether a pattern compiles depends on the
/// pattern alone. The error is the compiler's own message.
#[verifier::external_body]
fn compile_query(pattern: &str) -> (r: Result<(), String>)
    ensures
        r is Ok <==> regex_accepts(pattern@),
{
    match regex::Regex::new(pattern) {
        Ok(_) => Ok(()),
        Err(e) => Err(e.to_string()),
    }
}

/// Relies on regex::Regex::new and regex::Regex::is_match: both depend on
/// their string arguments alone, so a pattern the engine accepted once it
/// accepts here too, and the match outcome names the two strings only.
#[verifier::external_body]
fn query_is_match(pattern: &str, text: &str) -> (r: bool)
    requires
        regex_accepts(pattern@),
    ensures
        r == regex_match(pattern@, text@),
{
    match regex::Regex::new(pattern) {
        Ok(re) => re.is_match(text),
        Err(_) => false,
    }
}

/// The case-folded text, as the standard library computes it.
pub uninterp spec fn lower_of(s: Seq<char>) -> Seq<char>;

/// Relies on str::to_lowercase: the result depends on the characters alone.
#[verifier::external_body]
fn to_lowercase(s: &str) -> (r: String)
    ensures
        r@ == lower_of(s@),
{
    s.to_lowercase()
}

/// Which records a search pass keeps, by status.
pub enum StatusFilter {
    /// Every status passes.
    All,
    /// The status equals `Open`, up to ASCII case.
    Open,
    /// The status equals `Done`, up to ASCII case.
    Done,
    /// The status equals `Failed`, up to ASCII case.
    Failed,
    /// The status contains the given text, case-sensitively.
    Custom(String),
}

impl StatusFilter {
    /// What the filter accepts: built-in filters compare whole statuses up
    /// to ASCII case, while `Custom` asks for case-sensitive containment.
    pub open spec fn matches_spec(&self, status: Seq<char>) -> bool {
        match self {
            StatusFilter::All => true,
            StatusFilter::Open => ascii_ci_eq(status, "Open"@),
            StatusFilter::Done => ascii_ci_eq(status, "Done"@),
            StatusFilter::Failed => ascii_ci_eq(status, "Failed"@),
            StatusFilter::Custom(s) => contains_seq(status, s@),
        }
    }

    /// Whether a record with status `status` passes the filter.
    pub fn matches(&self, status: &str) -> (r: bool)
        ensures
            r == self.matches_spec(status@),
    {
        match self {
            StatusFilter::All => true,
            StatusFilter::Open => eq_ignore_ascii_case_str(status, "Open"),
            StatusFilter::Done => eq_ignore_ascii_case_str(status, "Done"),
            StatusFilter::Failed => eq_ignore_ascii_case_str(status, "Failed"),
            StatusFilter::Custom(s) => contains_str(status, s.as_str()),
        }
    }

    /// What the filter's display label reads.
    pub open spec fn label_spec(&self) -> Seq<char> {
        match self {
            StatusFilter::All => "All"@,
            StatusFilter::Open => "Open"@,
            StatusFilter::Done => "Done"@,
            StatusFilter::Failed => "Failed"@,
            StatusFilter::Custom(s) => "Custom("@ + s@ + ")"@,
        }
    }

    /// The filter's display label, per `label_spec`.
    pub fn label(&self) -> (r: String)
        ensures
            r@ == self.label_spec(),
    {
        match self {
            StatusFilter::All => "All".to_owned(),
            StatusFilter::Open => "Open".to_owned(),
            StatusFilter::Done => "Done".to_owned(),
            StatusFilter::Failed => "Failed".to_owned(),
            StatusFilter::Custom(s) => {
                let mut out = "Custom(".to_owned();
                out.append(s.as_str());
                out.append(")");
                out
            },
        }
    }
}

/// The dump of a record's fields that the search haystack ends with: one
/// line per field, in order.
pub open spec fn dump_pairs(s: Seq<(Seq<char>, Seq<char>)>) -> Seq<char>
    decreases s.len(),
{
    if s.len() == 0 {
        Seq::empty()
    } else {
        dump_pairs(s.drop_last()) + "\n"@ + s.last().0 + ": "@ + s.last().1
    }
}

/// The record's fields dumped line by line, per `dump_pairs`.
#[verifier::loop_isolation(false)]
fn dump_fields(item: &ToDoItem) -> (r: String)
    ensures
        r@ == dump_pairs(item.deep()),
{
    let mut out = String::new();
    proof {
        assert(item.deep().take(0) =~= Seq::<(Seq<char>, Seq<char>)>::empty());
    }
    let mut i: usize = 0;
    while i < item.fields.len()
        invariant
            0 <= i <= item.fields@.len(),
            out@ == dump_pairs(item.deep().take(i as int)),
        decreases item.fields@.len() - i,
    {
        out.append("\n");
        out.append(item.fields[i].0.as_str());
        out.append(": ");
        out.append(item.fields[i].1.as_str());
        proof {
            assert(item.deep().take(i + 1).drop_last() =~= item.deep().take(i as int));
            assert(item.deep().take(i + 1).last() == item.deep()[i as int]);
        }
        i += 1;
    }
    proof {
        assert(item.deep().take(item.deep().len() as int) =~= item.deep());
    }
    out
}

/// What a query is matched against: the record's display line, its GUID
/// and the dump of its fields, under fixed markers.
pub open spec fn haystack_spec(item: ToDoItem, guid: Seq<char>) -> Seq<char> {
    item.render_spec() + "\nGUID:"@ + guid + "\nYAML:"@ + dump_pairs(item.deep())
}

/// Build the search haystack for one record, per `haystack_spec`.
fn build_haystack(item: &ToDoItem, guid: &str) -> (r: String)
    requires
        item.wf(),
    ensures
        r@ == haystack_spec(*item, guid@),
{
    let mut out = item.render();
    out.append("\nGUID:");
    out.append(guid);
    out.append("\nYAML:");
    let dump = dump_fields(item);
    out.append(dump.as_str());
    out
}

/// Whether a query keeps a record with haystack `hay`: an empty query
/// always passes; otherwise a regular-expression query must match, and a
/// plain query must be contained, case-folded, in the folded haystack.
pub open spec fn query_matches(use_regex: bool, query: Seq<char>, hay: Seq<char>) -> bool {
    query.len() == 0 || (if use_regex {
        regex_match(query, hay)
    } else {
        contains_seq(lower_of(hay), lower_of(query))
    })
}

/// Whether the query keeps this record, per `query_matches`.
fn matches_query(item: &ToDoItem, guid: &str, use_regex: bool, query: &str) -> (r: bool)
    requires
        item.wf(),
        use_regex ==> regex_accepts(query@),
    ensures
        r == query_matches(use_regex, query@, haystack_spec(*item, guid@)),
{
    if query.unicode_len() == 0 {
        return true;
    }
    let hay = build_haystack(item, guid);
    if use_regex {
        query_is_match(query, hay.as_str())
    } else {
        let lh = to_lowercase(hay.as_str());
        let lq = to_lowercase(query);
        contains_str(lh.as_str(), lq.as_str())
    }
}

/// The status a search pass reads from a record: the `status` field, or
/// empty text when the field is absent.
pub open spec fn status_of(item: ToDoItem) -> Seq<char> {
    if kv_map(item.deep()).contains_key("status"@) {
        kv_map(item.deep())["status"@]
    } else {
        Seq::empty()
    }
}

/// Whether one collection entry passes both the status filter and the
/// query.
pub open spec fn entry_passes(
    filter: StatusFilter,
    use_regex: bool,
    query: Seq<char>,
    e: (String, ToDoItem),
) -> bool {
    filter.matches_spec(status_of(e.1)) && query_matches(use_regex, query, haystack_spec(e.1, e.0@))
}

/// `entry_passes`, as the predicate a search pass filters with.
pub open spec fn search_pred(filter: StatusFilter, use_regex: bool, query: Seq<char>) -> spec_fn(
    (String, ToDoItem),
) -> bool {
    |e: (String, ToDoItem)| entry_passes(filter, use_regex, query, e)
}

/// The entries read as character sequences: GUID and record fields.
pub open spec fn entries_view(s: Seq<(String, ToDoItem)>) -> Seq<
    (Seq<char>, Seq<(Seq<char>, Seq<char>)>),
> {
    s.map_values(|e: (String, ToDoItem)| (e.0@, e.1.deep()))
}

/// Run one search pass and return its snapshot: the entries that pass the
/// status filter and the query, in collection order, each holding a copy of
/// its record. A regular-expression query the engine refuses yields the
/// engine's message and an empty snapshot; otherwise no error is reported.
/// The snapshot is independent of the collection: later changes to either
/// leave the other as it stands.
#[verifier::loop_isolation(false)]
pub fn run_search(list: &ToDoList, filter: &StatusFilter, query: &str, use_regex: bool) -> (r: (
    Vec<(String, ToDoItem)>,
    Option<String>,
))
    requires
        list.wf(),
    ensures
        r.1 is Some <==> use_regex && !regex_accepts(query@),
        r.1 is Some ==> r.0@.len() == 0,
        r.1 is None ==> entries_view(r.0@) == entries_view(
            list.items@.filter(search_pred(*filter, use_regex, query@)),
        ),
        forall|i: int| 0 <= i < r.0@.len() ==> (#[trigger] r.0@[i]).1.wf(),
{
    let mut results: Vec<(String, ToDoItem)> = Vec::new();
    if use_regex {
        match compile_query(query) {
            Err(e) => {
                return (results, Some(e));
            },
            Ok(()) => {},
        }
    }
    let ghost pred = search_pred(*filter, use_regex, query@);
    proof {
        assert(list.items@.take(0).filter(pred) =~= Seq::<(String, ToDoItem)>::empty());
        assert(entries_view(results@) =~= entries_view(list.items@.take(0).filter(pred)));
    }
    let mut i: usize = 0;
    while i < list.items.len()
        invariant
            0 <= i <= list.items@.len(),
            use_regex ==> regex_accepts(query@),
            entries_view(results@) == entries_view(list.items@.take(i as int).filter(pred)),
            forall|j: int| 0 <= j < results@.len() ==> (#[trigger] results@[j]).1.wf(),
        decreases list.items@.len() - i,
    {
        let st = match list.items[i].1.status() {
            Some(s) => s,
            None => "",
        };
        proof {
            reveal_strlit("");
            assert(""@ =~= Seq::<char>::empty());
            assert(st@ == status_of(list.items@[i as int].1));
        }
        let keep = if filter.matches(st) {
            matches_query(&list.items[i].1, list.items[i].0.as_str(), use_regex, query)
        } else {
            false
        };
        proof {
            assert(keep == pred(list.items@[i as int]));
        }
        let ghost pre = results@;
        let ghost t1 = list.items@.take(i + 1);
        proof {
            reveal(Seq::filter);
            assert(t1.drop_last() =~= list.items@.take(i as int));
            assert(t1.last() == list.items@[i as int]);
            assert(t1.filter(pred) == if pred(t1.last()) {
                list.items@.take(i as int).filter(pred).push(t1.last())
            } else {
                list.items@.take(i as int).filter(pred)
            });
        }
        if keep {
            let g = list.items[i].0.clone();
            let copy = list.items[i].1.duplicate();
            proof {
                assert(g@ == list.items@[i as int].0@);
                assert(copy.deep() == list.items@[i as int].1.deep());
            }
            results.push((g, copy));
            proof {
                assert(results@ == pre.push((g, copy)));
                assert forall|k: int| 0 <= k < results@.len() implies entries_view(results@)[k]
                    == entries_view(t1.filter(pred))[k] by {
                    if k < pre.len() {
                        assert(results@[k] == pre[k]);
                        assert(t1.filter(pred)[k] == list.items@.take(i as int).filter(pred)[k]);
                        assert(entries_view(pre)[k] == entries_view(
                            list.items@.take(i as int).filter(pred),
                        )[k]);
                    } else {
                        assert(results@[k] == (g, copy));
                        assert(t1.filter(pred)[k] == t1.last());
                        assert(entries_view(results@)[k] == (g@, copy.deep()));
                        assert(entries_view(t1.filter(pred))[k] == (
                            t1.last().0@,
                            t1.last().1.deep(),
                        ));
                    }
                }
                assert(entries_view(results@) =~= entries_view(t1.filter(pred)));
            }
        } else {
            proof {
                assert(t1.filter(pred) == list.items@.take(i as int).filter(pred));
                assert(entries_view(results@) == entries_view(t1.filter(pred)));
            }
        }
        i += 1;
    }
    proof {
        assert(list.items@.take(list.items@.len() as int) =~= list.items@);
    }
    (results, None)
}

} // verus!
