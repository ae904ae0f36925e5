//! Declarations that a name may mean anywhere in the index.

use crate::text;
use vstd::prelude::*;
use vstd::string::StringExecFns;

verus! {

/// No more declarations are kept for a name.
pub const MAX_CANDIDATES: usize = 64;

/// A declaration: its row, its name and the language of its file.
#[derive(Debug)]
pub struct NamedDefinition {
    pub id: i64,
    pub name: String,
    pub language: String,
}

/// A name in a source, with what its own source says that it means.
#[derive(Debug)]
pub struct NameOccurrence {
    pub name: String,
    pub language: String,
    pub role: String,
    pub target: Option<i64>,
    pub candidates: Vec<i64>,
    pub provenance: String,
}

/// Whether sources in two languages can name each other's declarations.
pub open spec fn compatible(a: Seq<char>, b: Seq<char>) -> bool {
    a == b || ((a == "typescript"@ || a == "javascript"@) && (b == "typescript"@ || b
        == "javascript"@))
}

fn are_compatible(a: &str, b: &str) -> (yes: bool)
    ensures
        yes == compatible(a@, b@),
{
    text::same_text(a, b) || ((text::same_text(a, "typescript") || text::same_text(
        a,
        "javascript",
    )) && (text::same_text(b, "typescript") || text::same_text(b, "javascript")))
}

/// Whether a name may mean a declaration.
pub open spec fn may_mean(occurrence: NameOccurrence, definition: NamedDefinition) -> bool {
    definition.name@ == occurrence.name@ && compatible(
        definition.language@,
        occurrence.language@,
    )
}

/// The rows of the declarations that a name may mean, as they are listed.
pub open spec fn meanings(occurrence: NameOccurrence, definitions: Seq<NamedDefinition>) -> Seq<i64>
    decreases definitions.len(),
{
    if definitions.len() == 0 {
        Seq::empty()
    } else if may_mean(occurrence, definitions.last()) {
        meanings(occurrence, definitions.drop_last()).push(definitions.last().id)
    } else {
        meanings(occurrence, definitions.drop_last())
    }
}

/// Whether the index is searched for a name: only where its own source says nothing of what it
/// means, and only for names that are used.
pub open spec fn open_ended(occurrence: NameOccurrence) -> bool {
    occurrence.target is None && occurrence.candidates.len() == 0 && (occurrence.role@ == "call"@
        || occurrence.role@ == "read"@ || occurrence.role@ == "type"@)
}

/// Whether `ordered` are rows in their order.
pub open spec fn row_order(rows: Seq<i64>, ordered: Seq<i64>) -> bool {
    &&& ordered.to_multiset() == rows.to_multiset()
    &&& rows_rise(ordered)
}

/// Whether rows are in their order.
pub open spec fn rows_rise(rows: Seq<i64>) -> bool {
    forall|i: int, j: int| 0 <= i <= j < rows.len() ==> rows[i] <= rows[j]
}

/// Adds a row to rows in their order.
fn insert_row(rows: &mut Vec<i64>, row: i64)
    requires
        rows_rise(old(rows)@),
    ensures
        row_order(old(rows)@.push(row), final(rows)@),
{
    let mut at: usize = rows.len();
    while at > 0 && rows[at - 1] > row
        invariant
            at <= rows.len(),
            *rows == *old(rows),
            rows_rise(rows@),
            forall|j: int| at <= j < rows.len() ==> row < #[trigger] rows@[j],
        decreases at,
    {
        at -= 1;
    }
    rows.insert(at, row);
    proof {
        vstd::seq_lib::to_multiset_insert(old(rows)@, at as int, row);
        vstd::seq_lib::to_multiset_build(old(rows)@, row);
    }
}

/// Whether `result` are the declarations that a name may mean anywhere in the index, with their
/// provenance.
pub open spec fn refers(
    occurrence: NameOccurrence,
    definitions: Seq<NamedDefinition>,
    result: Option<(Vec<i64>, String)>,
) -> bool {
    match result {
        None => !open_ended(occurrence),
        Some((candidates, provenance)) => {
            &&& open_ended(occurrence)
            &&& exists|rows: Seq<i64>| #[trigger]
                row_order(meanings(occurrence, definitions), rows) && candidates@
                    == crate::store::module_config::at_most(rows, MAX_CANDIDATES as int)
            &&& provenance@ == occurrence.provenance@ + ";global_name_candidates"@
        },
    }
}

/// The declarations that a name may mean anywhere in the index, with their provenance. The
/// first of them in the order of their rows stay candidates, even where there is one only.
pub fn references(occurrence: &NameOccurrence, definitions: &Vec<NamedDefinition>) -> (result: Option<
    (Vec<i64>, String),
>)
    ensures
        refers(*occurrence, definitions@, result),
{
    let role = occurrence.role.as_str();
    if occurrence.target.is_some() || occurrence.candidates.len() > 0 || !(text::same_text(
        role,
        "call",
    ) || text::same_text(role, "read") || text::same_text(role, "type")) {
        return None;
    }
    let mut candidates: Vec<i64> = Vec::new();
    let mut i: usize = 0;
    while i < definitions.len()
        invariant
            i <= definitions.len(),
            row_order(meanings(*occurrence, definitions@.take(i as int)), candidates@),
        decreases definitions.len() - i,
    {
        let ghost found = meanings(*occurrence, definitions@.take(i as int));
        let ghost before = candidates@;
        assert(definitions@.take(i + 1).drop_last() =~= definitions@.take(i as int));
        if text::same_text(definitions[i].name.as_str(), occurrence.name.as_str())
            && are_compatible(definitions[i].language.as_str(), occurrence.language.as_str()) {
            insert_row(&mut candidates, definitions[i].id);
            proof {
                vstd::seq_lib::to_multiset_build(found, definitions@[i as int].id);
                vstd::seq_lib::to_multiset_build(before, definitions@[i as int].id);
            }
        }
        i += 1;
    }
    let ghost rows = candidates@;
    assert(definitions@.take(i as int) =~= definitions@);
    assert(row_order(meanings(*occurrence, definitions@), rows));
    candidates.truncate(MAX_CANDIDATES);
    assert(candidates@ =~= crate::store::module_config::at_most(rows, MAX_CANDIDATES as int));
    let mut provenance = occurrence.provenance.clone();
    provenance.append(";global_name_candidates");
    Some((candidates, provenance))
}

/// Whether a name may mean a declaration: they have one name, and the languages are the same, or
/// each is TypeScript or JavaScript.
pub open spec fn same_thing(occurrence: NameOccurrence, definition: NamedDefinition) -> bool {
    &&& definition.name@ == occurrence.name@
    &&& definition.language@ == occurrence.language@ || ((definition.language@ == "typescript"@
        || definition.language@ == "javascript"@) && (occurrence.language@ == "typescript"@
        || occurrence.language@ == "javascript"@))
}

proof fn lemma_meanings(occurrence: NameOccurrence, definitions: Seq<NamedDefinition>)
    ensures
        meanings(occurrence, definitions).len() == definitions.filter(
            |definition: NamedDefinition| same_thing(occurrence, definition),
        ).len(),
        forall|i: int|
            0 <= i < definitions.len() && same_thing(occurrence, #[trigger] definitions[i])
                ==> meanings(occurrence, definitions).contains(definitions[i].id),
        forall|id: i64|
            meanings(occurrence, definitions).contains(id) ==> #[trigger] has_meaning(
                occurrence,
                definitions,
                id,
            ),
    decreases definitions.len(),
{
    reveal(Seq::filter);
    if definitions.len() > 0 {
        let less = definitions.drop_last();
        lemma_meanings(occurrence, less);
        let before = meanings(occurrence, less);
        let all = meanings(occurrence, definitions);
        assert forall|i: int|
            0 <= i < definitions.len() && same_thing(
                occurrence,
                #[trigger] definitions[i],
            ) implies all.contains(definitions[i].id) by {
            if i < less.len() {
                assert(less[i] == definitions[i]);
                let k = choose|k: int| 0 <= k < before.len() && before[k] == less[i].id;
                assert(all[k] == definitions[i].id);
            } else {
                assert(all[all.len() - 1] == definitions[i].id);
            }
        }
        assert forall|id: i64| all.contains(id) implies #[trigger] has_meaning(
            occurrence,
            definitions,
            id,
        ) by {
            let k = choose|k: int| 0 <= k < all.len() && all[k] == id;
            if k < before.len() {
                assert(before[k] == id);
                assert(has_meaning(occurrence, less, id));
                let i = choose|i: int|
                    0 <= i < less.len() && same_thing(occurrence, #[trigger] less[i])
                        && less[i].id == id;
                assert(definitions[i] == less[i]);
            } else {
                assert(same_thing(occurrence, definitions[definitions.len() - 1]));
            }
        }
    }
}

/// Whether a row is that of a declaration that a name may mean.
pub open spec fn has_meaning(
    occurrence: NameOccurrence,
    definitions: Seq<NamedDefinition>,
    id: i64,
) -> bool {
    exists|i: int|
        0 <= i < definitions.len() && same_thing(occurrence, #[trigger] definitions[i])
            && definitions[i].id == id
}

proof fn lemma_same_members(a: Seq<i64>, b: Seq<i64>, x: i64)
    requires
        a.to_multiset() == b.to_multiset(),
        a.contains(x),
    ensures
        b.contains(x),
{
    broadcast use vstd::seq_lib::group_to_multiset_ensures;

    assert(a.to_multiset().count(x) > 0);
    assert(b.to_multiset().contains(x));
}

/// A name that is called, read or used as a type, and of which its own source says nothing, gets
/// candidates; no other name does. Each candidate is the row of a declaration with that name in
/// the same language, or with both in TypeScript or JavaScript. There are as many as there are
/// such declarations, and at most 64: then those with the first rows.
pub proof fn law_used_names_find_their_declarations(
    occurrence: NameOccurrence,
    definitions: Seq<NamedDefinition>,
    result: Option<(Vec<i64>, String)>,
)
    requires
        refers(occurrence, definitions, result),
    ensures
        result is Some <==> {
            &&& occurrence.target is None
            &&& occurrence.candidates@.len() == 0
            &&& occurrence.role@ == "call"@ || occurrence.role@ == "read"@ || occurrence.role@
                == "type"@
        },
        result matches Some((candidates, provenance)) ==> {
            let count = definitions.filter(
                |definition: NamedDefinition| same_thing(occurrence, definition),
            ).len();
            &&& provenance@ == occurrence.provenance@ + ";global_name_candidates"@
            &&& candidates@.len() == if count < 64 {
                count
            } else {
                64
            }
            &&& forall|i: int, j: int|
                0 <= i <= j < candidates@.len() ==> candidates@[i] <= candidates@[j]
            &&& forall|id: i64| #[trigger]
                candidates@.contains(id) ==> has_meaning(occurrence, definitions, id)
            &&& forall|i: int|
                0 <= i < definitions.len() && same_thing(occurrence, #[trigger] definitions[i])
                    && !candidates@.contains(definitions[i].id) ==> candidates@.len() == 64
                    && forall|k: int| 0 <= k < 64 ==> #[trigger] candidates@[k] <= definitions[i].id
        },
{
    if let Some((candidates, provenance)) = result {
        lemma_meanings(occurrence, definitions);
        let all = meanings(occurrence, definitions);
        let rows = choose|rows: Seq<i64>| #[trigger]
            row_order(all, rows) && candidates@ == crate::store::module_config::at_most(
                rows,
                MAX_CANDIDATES as int,
            );
        vstd::seq_lib::to_multiset_len(rows);
        vstd::seq_lib::to_multiset_len(all);
        assert forall|id: i64| #[trigger] candidates@.contains(id) implies has_meaning(
            occurrence,
            definitions,
            id,
        ) by {
            let k = choose|k: int| 0 <= k < candidates@.len() && candidates@[k] == id;
            assert(rows[k] == id);
            assert(rows.contains(id));
            lemma_same_members(rows, all, id);
        }
        assert forall|i: int|
            0 <= i < definitions.len() && same_thing(occurrence, #[trigger] definitions[i])
                && !candidates@.contains(definitions[i].id) implies candidates@.len() == 64
            && forall|k: int| 0 <= k < 64 ==> #[trigger] candidates@[k] <= definitions[i].id by {
            assert(all.contains(definitions[i].id));
            lemma_same_members(all, rows, definitions[i].id);
            let k = choose|k: int| 0 <= k < rows.len() && rows[k] == definitions[i].id;
            if k < candidates@.len() {
                assert(candidates@[k] == definitions[i].id);
            }
        }
    }
}

/// Rows have one order, so that what a name may mean is settled by the declarations, however they
/// are listed.
pub proof fn law_row_order_is_settled(rows: Seq<i64>, a: Seq<i64>, b: Seq<i64>)
    requires
        row_order(rows, a),
        row_order(rows, b),
    ensures
        a == b,
{
    let leq = |x: i64, y: i64| x <= y;
    assert forall|i: int, j: int| 0 <= i < j < a.len() implies #[trigger] leq(a[i], a[j]) by {}
    assert forall|i: int, j: int| 0 <= i < j < b.len() implies #[trigger] leq(b[i], b[j]) by {}
    vstd::seq_lib::lemma_sorted_unique(a, b, leq);
}

} // verus!
