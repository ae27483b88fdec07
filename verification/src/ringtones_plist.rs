//! The catalog of a device and the comparison of a fresh inventory with the
//! inventory that the catalog holds.

use vstd::prelude::*;
use vstd::string::*;
use std::path::PathBuf;
use crate::data::{has_key, lemma_lookup, pairs_map, sorted_by_name, MediaKind, Pair, Ringtones, Tone, ToneView};
use crate::order::key_precedes;
use crate::paths::{join, joined};
use crate::seconds::{lemma_seconds_text_injective, push_seconds, seconds_text};
use crate::text::{decimal_digits, lemma_decimal_round_trip, push_decimal, text_of};

verus! {

/// The catalog file below the media directory of a device.
pub fn ringtones_plist(media_directory: &PathBuf) -> (catalog: PathBuf)
    ensures
        catalog == joined(*media_directory, "iTunes_Control/iTunes/Ringtones.plist"@),
{
    join(media_directory, "iTunes_Control/iTunes/Ringtones.plist")
}

/// The fields of a record, in the order in which they are compared.
#[derive(Debug, Clone, Copy, PartialEq, Eq, Structural)]
pub enum Field {
    Name,
    TotalTime,
    MediaKind,
    ProtectedContent,
    Pid,
    Guid,
}

impl Field {
    /// The name of the field in a catalog.
    pub open spec fn label(self) -> Seq<char> {
        match self {
            Field::Name => "Name"@,
            Field::TotalTime => "Total Time"@,
            Field::MediaKind => "Media Kind"@,
            Field::ProtectedContent => "Protected Content"@,
            Field::Pid => "PID"@,
            Field::Guid => "GUID"@,
        }
    }

    /// The name of the field in a catalog.
    pub fn name(&self) -> (text: &'static str)
        ensures
            text@ == self.label(),
    {
        match self {
            Field::Name => "Name",
            Field::TotalTime => "Total Time",
            Field::MediaKind => "Media Kind",
            Field::ProtectedContent => "Protected Content",
            Field::Pid => "PID",
            Field::Guid => "GUID",
        }
    }
}

/// How a kind is written in a report.
pub open spec fn kind_text(kind: MediaKind) -> Seq<char> {
    match kind {
        MediaKind::Tone => "Tone"@,
        MediaKind::Ringtone => "Ringtone"@,
    }
}

/// How a flag is written in a report.
pub open spec fn flag_text(flag: bool) -> Seq<char> {
    if flag {
        "true"@
    } else {
        "false"@
    }
}

/// How the field `field` of `tone` is written in a report: texts as they
/// are, numbers in decimal, the playing time in seconds.
pub open spec fn field_text(tone: ToneView, field: Field) -> Seq<char> {
    match field {
        Field::Name => tone.name,
        Field::TotalTime => seconds_text(tone.total_time),
        Field::MediaKind => kind_text(tone.media_kind),
        Field::ProtectedContent => flag_text(tone.protected_content),
        Field::Pid => decimal_digits(tone.pid as nat),
        Field::Guid => tone.guid,
    }
}

/// Whether two records hold different values in the field `field`.
pub open spec fn field_differs(fresh: ToneView, persisted: ToneView, field: Field) -> bool {
    match field {
        Field::Name => fresh.name != persisted.name,
        Field::TotalTime => fresh.total_time != persisted.total_time,
        Field::MediaKind => fresh.media_kind != persisted.media_kind,
        Field::ProtectedContent => fresh.protected_content != persisted.protected_content,
        Field::Pid => fresh.pid != persisted.pid,
        Field::Guid => fresh.guid != persisted.guid,
    }
}

/// One field in which two records of the same name differ, with the text of
/// the field in either record.
#[derive(Debug, Clone, PartialEq, Eq)]
pub struct Mismatch {
    pub field: Field,
    pub fresh: String,
    pub persisted: String,
}

/// A `Mismatch` as a mathematical value.
pub struct MismatchView {
    pub field: Field,
    pub fresh: Seq<char>,
    pub persisted: Seq<char>,
}

impl View for Mismatch {
    type V = MismatchView;

    open spec fn view(&self) -> MismatchView {
        MismatchView { field: self.field, fresh: self.fresh@, persisted: self.persisted@ }
    }
}

/// The mismatches of `items` as mathematical values.
pub open spec fn mismatch_views(items: Seq<Mismatch>) -> Seq<MismatchView> {
    items.map_values(|item: Mismatch| item@)
}

/// What the comparison of one field reports: the mismatch, where the two
/// texts of the field differ, and nothing where they are the same text.
pub open spec fn field_mismatch(fresh: ToneView, persisted: ToneView, field: Field) -> Seq<
    MismatchView,
> {
    if field_text(fresh, field) != field_text(persisted, field) {
        seq![
            MismatchView {
                field,
                fresh: field_text(fresh, field),
                persisted: field_text(persisted, field),
            },
        ]
    } else {
        Seq::empty()
    }
}

/// What the comparison of two records reports: the mismatches of the six
/// fields, in the order of the fields.
pub open spec fn mismatches_of(fresh: ToneView, persisted: ToneView) -> Seq<MismatchView> {
    field_mismatch(fresh, persisted, Field::Name) + field_mismatch(fresh, persisted, Field::TotalTime)
        + field_mismatch(fresh, persisted, Field::MediaKind) + field_mismatch(
        fresh,
        persisted,
        Field::ProtectedContent,
    ) + field_mismatch(fresh, persisted, Field::Pid) + field_mismatch(fresh, persisted, Field::Guid)
}

/// What a comparison has to say of one record of the fresh inventory.
#[derive(Debug, Clone, PartialEq, Eq)]
pub enum Discrepancy {
    /// The catalog has no record of that name.
    Missing { name: String },
    /// The catalog has a record of that name, and it differs in these fields.
    Differs { name: String, mismatches: Vec<Mismatch> },
}

/// A `Discrepancy` as a mathematical value.
pub enum DiscrepancyView {
    Missing { name: Seq<char> },
    Differs { name: Seq<char>, mismatches: Seq<MismatchView> },
}

impl View for Discrepancy {
    type V = DiscrepancyView;

    open spec fn view(&self) -> DiscrepancyView {
        match self {
            Discrepancy::Missing { name } => DiscrepancyView::Missing { name: name@ },
            Discrepancy::Differs { name, mismatches } => DiscrepancyView::Differs {
                name: name@,
                mismatches: mismatch_views(mismatches@),
            },
        }
    }
}

impl DiscrepancyView {
    /// The name of the record that the discrepancy is about.
    pub open spec fn name(self) -> Seq<char> {
        match self {
            DiscrepancyView::Missing { name } => name,
            DiscrepancyView::Differs { name, .. } => name,
        }
    }
}

impl Discrepancy {
    /// The name of the record that the discrepancy is about.
    pub fn name(&self) -> (name: &String)
        ensures
            name@ == self@.name(),
    {
        match self {
            Discrepancy::Missing { name } => name,
            Discrepancy::Differs { name, .. } => name,
        }
    }
}

/// The discrepancies of `items` as mathematical values.
pub open spec fn discrepancy_views(items: Seq<Discrepancy>) -> Seq<DiscrepancyView> {
    items.map_values(|item: Discrepancy| item@)
}

/// What the comparison reports of the fresh record `fresh` called `name`:
/// that it is missing, where the catalog has no record of that name; its
/// mismatches, where the catalog's record differs; else nothing.
pub open spec fn discrepancy_of(
    name: Seq<char>,
    fresh: ToneView,
    persisted: Map<Seq<char>, ToneView>,
) -> Seq<DiscrepancyView> {
    if !persisted.contains_key(name) {
        seq![DiscrepancyView::Missing { name }]
    } else if mismatches_of(fresh, persisted[name]).len() > 0 {
        seq![DiscrepancyView::Differs { name, mismatches: mismatches_of(fresh, persisted[name]) }]
    } else {
        Seq::empty()
    }
}

/// What the comparison of the fresh records `fresh` with the catalog
/// `persisted` reports: the discrepancies of the fresh records, in the order
/// of these records. Records that only the catalog has are not looked at.
pub open spec fn discrepancies(fresh: Seq<Pair>, persisted: Map<Seq<char>, ToneView>) -> Seq<
    DiscrepancyView,
>
    decreases fresh.len(),
{
    if fresh.len() == 0 {
        Seq::empty()
    } else {
        discrepancies(fresh.drop_last(), persisted) + discrepancy_of(
            fresh.last().0,
            fresh.last().1,
            persisted,
        )
    }
}

/// The text of one field of a record.
fn text_of_field(tone: &Tone, field: Field) -> (text: String)
    ensures
        text@ == field_text(tone@, field),
{
    match field {
        Field::Name => tone.name.clone(),
        Field::TotalTime => {
            let mut chars: Vec<char> = Vec::new();
            push_seconds(&mut chars, tone.total_time);
            assert(chars@ =~= seconds_text(tone.total_time));
            text_of(&chars)
        },
        Field::MediaKind => match tone.media_kind {
            MediaKind::Tone => "Tone".to_owned(),
            MediaKind::Ringtone => "Ringtone".to_owned(),
        },
        Field::ProtectedContent => if tone.protected_content {
            "true".to_owned()
        } else {
            "false".to_owned()
        },
        Field::Pid => {
            let mut chars: Vec<char> = Vec::new();
            push_decimal(&mut chars, tone.pid as u128);
            assert(chars@ =~= decimal_digits(tone.pid as nat));
            text_of(&chars)
        },
        Field::Guid => tone.guid.clone(),
    }
}

/// Compares one field of two records and adds the mismatch to `found`, if
/// there is one.
fn compare_field(found: &mut Vec<Mismatch>, fresh: &Tone, persisted: &Tone, field: Field)
    ensures
        mismatch_views(final(found)@) == mismatch_views(old(found)@) + field_mismatch(
            fresh@,
            persisted@,
            field,
        ),
{
    let a = text_of_field(fresh, field);
    let b = text_of_field(persisted, field);
    if !(a == b) {
        found.push(Mismatch { field, fresh: a, persisted: b });
    }
    assert(mismatch_views(final(found)@) =~= mismatch_views(old(found)@) + field_mismatch(
        fresh@,
        persisted@,
        field,
    ));
}

/// Compares two records field by field: each of the six fields is written as
/// text, and every field whose two texts differ is reported with both.
pub fn field_mismatches(fresh: &Tone, persisted: &Tone) -> (found: Vec<Mismatch>)
    ensures
        mismatch_views(found@) == mismatches_of(fresh@, persisted@),
{
    let mut found: Vec<Mismatch> = Vec::new();
    assert(mismatch_views(found@) =~= Seq::<MismatchView>::empty());
    compare_field(&mut found, fresh, persisted, Field::Name);
    compare_field(&mut found, fresh, persisted, Field::TotalTime);
    compare_field(&mut found, fresh, persisted, Field::MediaKind);
    compare_field(&mut found, fresh, persisted, Field::ProtectedContent);
    compare_field(&mut found, fresh, persisted, Field::Pid);
    compare_field(&mut found, fresh, persisted, Field::Guid);
    assert(mismatch_views(found@) =~= mismatches_of(fresh@, persisted@));
    found
}

/// Compares a fresh inventory with the inventory of a catalog. Every record
/// of the fresh inventory is looked up in the catalog by its name: a record
/// that the catalog lacks is reported as missing, one that the catalog holds
/// with other values is reported with the fields that differ, and one that
/// the catalog holds with the same values is not reported. Records that only
/// the catalog holds are not reported. The reports come in the order of the
/// fresh inventory.
pub fn validate_ringtones_plist(fresh: &Ringtones, persisted: &Ringtones) -> (found: Vec<Discrepancy>)
    requires
        fresh.wf(),
        persisted.wf(),
    ensures
        discrepancy_views(found@) == discrepancies(fresh.pairs(), persisted@),
{
    let mut found: Vec<Discrepancy> = Vec::new();
    assert(discrepancy_views(found@) =~= Seq::<DiscrepancyView>::empty());
    let count: usize = fresh.len();
    let mut i: usize = 0;
    while i < count
        invariant
            fresh.wf(),
            persisted.wf(),
            count == fresh.pairs().len(),
            i <= count,
            discrepancy_views(found@) == discrepancies(fresh.pairs().subrange(0, i as int), persisted@),
        decreases count - i,
    {
        let name = fresh.name_at(i);
        let tone = fresh.tone_at(i);
        let ghost reported = discrepancy_views(found@);
        proof {
            let read = fresh.pairs().subrange(0, i + 1);
            assert(read.drop_last() =~= fresh.pairs().subrange(0, i as int));
            assert(read.last() == fresh.pairs()[i as int]);
        }
        match persisted.get(name.as_str()) {
            None => {
                found.push(Discrepancy::Missing { name: name.clone() });
            },
            Some(entry) => {
                if !tone.same_as(entry) {
                    let mismatches = field_mismatches(tone, entry);
                    if mismatches.len() > 0 {
                        found.push(Discrepancy::Differs { name: name.clone(), mismatches });
                    }
                }
            },
        }
        assert(discrepancy_views(found@) =~= reported + discrepancy_of(name@, tone@, persisted@));
        i = i + 1;
    }
    assert(fresh.pairs().subrange(0, count as int) =~= fresh.pairs());
    found
}

/// The place of a field in the order in which the fields are compared.
pub open spec fn field_rank(field: Field) -> int {
    match field {
        Field::Name => 0,
        Field::TotalTime => 1,
        Field::MediaKind => 2,
        Field::ProtectedContent => 3,
        Field::Pid => 4,
        Field::Guid => 5,
    }
}

/// Whether `found` holds a mismatch of the field `field`.
pub open spec fn lists_field(found: Seq<MismatchView>, field: Field) -> bool {
    exists|i: int| 0 <= i < found.len() && (#[trigger] found[i]).field == field
}

/// Whether the mismatches of `found` come in the order of their fields, all
/// of them before the field of rank `bound`.
pub open spec fn in_field_order(found: Seq<MismatchView>, bound: int) -> bool {
    &&& forall|i: int| 0 <= i < found.len() ==> field_rank((#[trigger] found[i]).field) < bound
    &&& forall|i: int, j: int|
        0 <= i < j < found.len() ==> field_rank((#[trigger] found[i]).field) < field_rank(
            (#[trigger] found[j]).field,
        )
}

/// The text of a field tells two records apart exactly when they hold
/// different values in that field: no two values of a field are written
/// alike.
pub proof fn lemma_field_text_tells_apart(fresh: ToneView, persisted: ToneView, field: Field)
    ensures
        field_text(fresh, field) != field_text(persisted, field) <==> field_differs(fresh, persisted, field),
{
    match field {
        Field::Name => {},
        Field::TotalTime => {
            if field_text(fresh, field) == field_text(persisted, field) {
                lemma_seconds_text_injective(fresh.total_time, persisted.total_time);
            }
        },
        Field::MediaKind => {
            reveal_strlit("Tone");
            reveal_strlit("Ringtone");
            assert("Tone"@.len() != "Ringtone"@.len());
        },
        Field::ProtectedContent => {
            reveal_strlit("true");
            reveal_strlit("false");
            assert("true"@.len() != "false"@.len());
        },
        Field::Pid => {
            lemma_decimal_round_trip(fresh.pid as nat);
            lemma_decimal_round_trip(persisted.pid as nat);
        },
        Field::Guid => {},
    }
}

/// What one more field adds to the mismatches found so far.
proof fn lemma_next_field(
    found: Seq<MismatchView>,
    fresh: ToneView,
    persisted: ToneView,
    next: Field,
    field: Field,
)
    requires
        in_field_order(found, field_rank(next)),
        forall|i: int|
            0 <= i < found.len() ==> (#[trigger] found[i]).fresh == field_text(fresh, found[i].field)
                && found[i].persisted == field_text(persisted, found[i].field),
    ensures
        in_field_order(found + field_mismatch(fresh, persisted, next), field_rank(next) + 1),
        lists_field(found + field_mismatch(fresh, persisted, next), field) <==> lists_field(found, field) || (
        field == next && field_differs(fresh, persisted, next)),
        forall|i: int|
            #![trigger (found + field_mismatch(fresh, persisted, next))[i]]
            0 <= i < (found + field_mismatch(fresh, persisted, next)).len() ==> {
                let item = (found + field_mismatch(fresh, persisted, next))[i];
                item.fresh == field_text(fresh, item.field) && item.persisted == field_text(
                    persisted,
                    item.field,
                )
            },
{
    let piece = field_mismatch(fresh, persisted, next);
    let more = found + piece;
    lemma_field_text_tells_apart(fresh, persisted, next);
    assert forall|i: int| 0 <= i < more.len() implies (i < found.len() ==> more[i] == found[i]) && (i
        >= found.len() ==> more[i] == piece[0]) by {}
    if lists_field(found, field) {
        let i = choose|i: int| 0 <= i < found.len() && (#[trigger] found[i]).field == field;
        assert(more[i].field == field);
    }
    if field == next && field_differs(fresh, persisted, next) {
        assert(more[found.len() as int].field == field);
    }
    if lists_field(more, field) {
        let i = choose|i: int| 0 <= i < more.len() && (#[trigger] more[i]).field == field;
        if i < found.len() {
            assert(found[i].field == field);
        }
    }
}

/// The mismatches of two records name exactly the fields in which the
/// records differ, each once and in the order of the fields, and each with
/// the text of the field in the fresh record and in the record of the
/// catalog.
pub proof fn lemma_mismatches_complete(fresh: ToneView, persisted: ToneView)
    ensures
        forall|field: Field|
            lists_field(mismatches_of(fresh, persisted), field) <==> field_differs(fresh, persisted, field),
        in_field_order(mismatches_of(fresh, persisted), 6),
        forall|i: int|
            #![trigger mismatches_of(fresh, persisted)[i]]
            0 <= i < mismatches_of(fresh, persisted).len() ==> {
                let item = mismatches_of(fresh, persisted)[i];
                item.fresh == field_text(fresh, item.field) && item.persisted == field_text(
                    persisted,
                    item.field,
                )
            },
        mismatches_of(fresh, persisted).len() == 0 <==> fresh == persisted,
{
    let none = Seq::<MismatchView>::empty();
    let s1 = none + field_mismatch(fresh, persisted, Field::Name);
    let s2 = s1 + field_mismatch(fresh, persisted, Field::TotalTime);
    let s3 = s2 + field_mismatch(fresh, persisted, Field::MediaKind);
    let s4 = s3 + field_mismatch(fresh, persisted, Field::ProtectedContent);
    let s5 = s4 + field_mismatch(fresh, persisted, Field::Pid);
    let s6 = s5 + field_mismatch(fresh, persisted, Field::Guid);
    assert(s1 =~= field_mismatch(fresh, persisted, Field::Name));
    assert(s6 == mismatches_of(fresh, persisted));
    assert forall|field: Field| lists_field(s6, field) <==> field_differs(fresh, persisted, field) by {
        lemma_next_field(none, fresh, persisted, Field::Name, field);
        lemma_next_field(s1, fresh, persisted, Field::TotalTime, field);
        lemma_next_field(s2, fresh, persisted, Field::MediaKind, field);
        lemma_next_field(s3, fresh, persisted, Field::ProtectedContent, field);
        lemma_next_field(s4, fresh, persisted, Field::Pid, field);
        lemma_next_field(s5, fresh, persisted, Field::Guid, field);
    }
    lemma_next_field(none, fresh, persisted, Field::Name, Field::Name);
    lemma_next_field(s1, fresh, persisted, Field::TotalTime, Field::Name);
    lemma_next_field(s2, fresh, persisted, Field::MediaKind, Field::Name);
    lemma_next_field(s3, fresh, persisted, Field::ProtectedContent, Field::Name);
    lemma_next_field(s4, fresh, persisted, Field::Pid, Field::Name);
    lemma_next_field(s5, fresh, persisted, Field::Guid, Field::Name);
    if s6.len() == 0 {
        assert forall|field: Field| !field_differs(fresh, persisted, field) by {
            assert(!lists_field(s6, field));
        }
        assert(!field_differs(fresh, persisted, Field::Name));
        assert(!field_differs(fresh, persisted, Field::TotalTime));
        assert(!field_differs(fresh, persisted, Field::MediaKind));
        assert(!field_differs(fresh, persisted, Field::ProtectedContent));
        assert(!field_differs(fresh, persisted, Field::Pid));
        assert(!field_differs(fresh, persisted, Field::Guid));
    }
}

/// A fresh record is passed over exactly when the catalog holds the same
/// record under its name; it is reported as missing exactly when the catalog
/// holds none under its name; and it is never reported twice.
pub proof fn lemma_reported_when_different(
    name: Seq<char>,
    fresh: ToneView,
    persisted: Map<Seq<char>, ToneView>,
)
    ensures
        discrepancy_of(name, fresh, persisted).len() <= 1,
        discrepancy_of(name, fresh, persisted).len() == 0 <==> persisted.contains_key(name)
            && persisted[name] == fresh,
        !persisted.contains_key(name) <==> discrepancy_of(name, fresh, persisted) == seq![
            DiscrepancyView::Missing { name },
        ],
        forall|i: int|
            0 <= i < discrepancy_of(name, fresh, persisted).len() ==> (#[trigger] discrepancy_of(
                name,
                fresh,
                persisted,
            )[i]).name() == name,
{
    if persisted.contains_key(name) {
        lemma_mismatches_complete(fresh, persisted[name]);
        let found = discrepancy_of(name, fresh, persisted);
        if found.len() > 0 {
            assert(found[0] is Differs);
        }
    }
}

/// Every discrepancy is about a record of the fresh inventory.
pub proof fn lemma_discrepancies_are_of_fresh_records(
    fresh: Seq<Pair>,
    persisted: Map<Seq<char>, ToneView>,
)
    ensures
        forall|i: int|
            0 <= i < discrepancies(fresh, persisted).len() ==> has_key(
                fresh,
                (#[trigger] discrepancies(fresh, persisted)[i]).name(),
            ),
    decreases fresh.len(),
{
    if fresh.len() > 0 {
        let earlier = discrepancies(fresh.drop_last(), persisted);
        let found = discrepancies(fresh, persisted);
        lemma_discrepancies_are_of_fresh_records(fresh.drop_last(), persisted);
        assert forall|i: int| 0 <= i < found.len() implies has_key(fresh, (#[trigger] found[i]).name()) by {
            if i < earlier.len() {
                assert(found[i] == earlier[i]);
                let at = choose|at: int|
                    0 <= at < fresh.drop_last().len() && (#[trigger] fresh.drop_last()[at]).0
                        == earlier[i].name();
                assert(fresh[at].0 == found[i].name());
            } else {
                assert(fresh[fresh.len() - 1].0 == found[i].name());
            }
        }
    }
}

/// A record that only the catalog holds changes nothing: with or without it
/// the comparison reports the same.
pub proof fn lemma_persisted_only_record_is_ignored(
    fresh: Seq<Pair>,
    persisted: Map<Seq<char>, ToneView>,
    name: Seq<char>,
    tone: ToneView,
)
    requires
        !has_key(fresh, name),
    ensures
        discrepancies(fresh, persisted.insert(name, tone)) == discrepancies(fresh, persisted),
        discrepancies(fresh, persisted.remove(name)) == discrepancies(fresh, persisted),
    decreases fresh.len(),
{
    if fresh.len() > 0 {
        let shorter = fresh.drop_last();
        assert forall|i: int| 0 <= i < shorter.len() implies (#[trigger] shorter[i]).0 != name by {
            assert(fresh[i].0 != name);
        }
        lemma_persisted_only_record_is_ignored(shorter, persisted, name, tone);
        assert(fresh[fresh.len() - 1].0 != name);
    }
}

/// The first records of an inventory, compared with the whole inventory,
/// give no discrepancy.
proof fn lemma_no_discrepancy_upto(pairs: Seq<Pair>, upto: int)
    requires
        sorted_by_name(pairs),
        0 <= upto <= pairs.len(),
    ensures
        discrepancies(pairs.subrange(0, upto), pairs_map(pairs)) == Seq::<DiscrepancyView>::empty(),
    decreases upto,
{
    if upto > 0 {
        lemma_no_discrepancy_upto(pairs, upto - 1);
        let read = pairs.subrange(0, upto);
        assert(read.drop_last() =~= pairs.subrange(0, upto - 1));
        assert(read.last() == pairs[upto - 1]);
        lemma_lookup(pairs, upto - 1);
        lemma_mismatches_complete(pairs[upto - 1].1, pairs[upto - 1].1);
    }
}

/// An inventory compared with itself, or with an inventory of the same
/// records, gives no discrepancy.
pub proof fn lemma_no_discrepancy_with_itself(pairs: Seq<Pair>)
    requires
        sorted_by_name(pairs),
    ensures
        discrepancies(pairs, pairs_map(pairs)) == Seq::<DiscrepancyView>::empty(),
{
    lemma_no_discrepancy_upto(pairs, pairs.len() as int);
    assert(pairs.subrange(0, pairs.len() as int) =~= pairs);
}

/// The reports come in the order of the fresh records: where the names of
/// the fresh records ascend, so do the names of the discrepancies, and no
/// record has two.
pub proof fn lemma_discrepancies_in_order(fresh: Seq<Pair>, persisted: Map<Seq<char>, ToneView>)
    requires
        sorted_by_name(fresh),
    ensures
        discrepancies(fresh, persisted).len() <= fresh.len(),
        forall|i: int, j: int|
            0 <= i < j < discrepancies(fresh, persisted).len() ==> key_precedes(
                (#[trigger] discrepancies(fresh, persisted)[i]).name(),
                (#[trigger] discrepancies(fresh, persisted)[j]).name(),
            ),
    decreases fresh.len(),
{
    if fresh.len() > 0 {
        let shorter = fresh.drop_last();
        let last = fresh.last();
        let earlier = discrepancies(shorter, persisted);
        let found = discrepancies(fresh, persisted);
        assert forall|i: int, j: int| 0 <= i < j < shorter.len() implies key_precedes(
            (#[trigger] shorter[i]).0,
            (#[trigger] shorter[j]).0,
        ) by {
            assert(shorter[i] == fresh[i]);
            assert(shorter[j] == fresh[j]);
        }
        lemma_discrepancies_in_order(shorter, persisted);
        lemma_discrepancies_are_of_fresh_records(shorter, persisted);
        lemma_reported_when_different(last.0, last.1, persisted);
        assert forall|i: int, j: int| 0 <= i < j < found.len() implies key_precedes(
            (#[trigger] found[i]).name(),
            (#[trigger] found[j]).name(),
        ) by {
            assert(found[i] == earlier[i]);
            if j < earlier.len() {
                assert(found[j] == earlier[j]);
            } else {
                assert(found[j] == discrepancy_of(last.0, last.1, persisted)[0]);
                let at = choose|at: int| 0 <= at < shorter.len() && (#[trigger] shorter[at]).0 == earlier[i].name();
                assert(fresh[at].0 == found[i].name());
                assert(fresh[fresh.len() - 1].0 == found[j].name());
            }
        }
    }
}

} // verus!
