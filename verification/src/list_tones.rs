//! From the sound files of a directory to an inventory: each file is named,
//! classified by its playing time and given its identity.

use vstd::prelude::*;
use vstd::string::*;
use std::path::PathBuf;
use crate::data::{MediaKind, Ringtones, Tone, ToneView};
use crate::identity::{guid_of_name, pid_of_name, synthesize};
use crate::paths::{join, joined};
use crate::seconds::NANOS_PER_SECOND;
use crate::text::chars_of;

verus! {

/// The directory of the sound files below the media directory of a device.
pub fn tones_directory(media_directory: &PathBuf) -> (directory: PathBuf)
    ensures
        directory == joined(*media_directory, "iTunes_Control/Ringtones"@),
{
    join(media_directory, "iTunes_Control/Ringtones")
}

/// The kind of a sound that plays for `total_time` nanoseconds: an alert tone
/// when that is strictly less than `threshold` seconds, else a ringtone.
pub open spec fn kind_of(total_time: u128, threshold: u16) -> MediaKind {
    if total_time < threshold * NANOS_PER_SECOND {
        MediaKind::Tone
    } else {
        MediaKind::Ringtone
    }
}

/// Classifies a sound by its playing time, given in nanoseconds, against a
/// threshold in seconds. A sound that plays exactly as long as the threshold
/// is a ringtone.
pub fn classify(total_time: u128, alerts_threshold: u16) -> (kind: MediaKind)
    ensures
        kind == MediaKind::Tone <==> total_time < alerts_threshold * NANOS_PER_SECOND,
        kind == MediaKind::Ringtone <==> total_time >= alerts_threshold * NANOS_PER_SECOND,
        kind == kind_of(total_time, alerts_threshold),
{
    if total_time < (alerts_threshold as u128) * NANOS_PER_SECOND {
        MediaKind::Tone
    } else {
        MediaKind::Ringtone
    }
}

/// The position of the last `.` of `name`, or -1 where it has none.
pub open spec fn last_dot(name: Seq<char>) -> int
    decreases name.len(),
{
    if name.len() == 0 {
        -1
    } else if name.last() == '.' {
        name.len() - 1
    } else {
        last_dot(name.drop_last())
    }
}

/// A file name without its extension: what stands before the last `.`. A
/// name without a `.`, or whose only `.` is its first character, has no
/// extension and is kept whole.
pub open spec fn file_stem(name: Seq<char>) -> Seq<char> {
    if last_dot(name) <= 0 {
        name
    } else {
        name.subrange(0, last_dot(name))
    }
}

/// Where `name` has no `.` from position `from` on, its last `.` is the last
/// `.` of what stands before `from`.
pub proof fn lemma_last_dot_skips(name: Seq<char>, from: int)
    requires
        0 <= from <= name.len(),
        forall|j: int| from <= j < name.len() ==> name[j] != '.',
    ensures
        last_dot(name) == last_dot(name.subrange(0, from)),
    decreases name.len() - from,
{
    if from == name.len() {
        assert(name.subrange(0, from) =~= name);
    } else {
        let shorter = name.drop_last();
        assert(shorter.subrange(0, from) =~= name.subrange(0, from));
        lemma_last_dot_skips(shorter, from);
    }
}

/// The name of a file without its extension.
pub fn display_name(file_name: &str) -> (name: String)
    ensures
        name@ == file_stem(file_name@),
{
    let chars = chars_of(file_name);
    let mut end: usize = chars.len();
    while end > 0 && chars[end - 1] != '.'
        invariant
            end <= chars.len(),
            forall|j: int| end <= j < chars.len() ==> chars@[j] != '.',
        decreases end,
    {
        end = end - 1;
    }
    proof {
        lemma_last_dot_skips(chars@, end as int);
    }
    if end <= 1 {
        file_name.to_owned()
    } else {
        file_name.substring_char(0, end - 1).to_owned()
    }
}

/// A sound file as a scan finds it: the name of the file, extension
/// included, and its playing time in nanoseconds.
#[derive(Debug, Clone, PartialEq, Eq)]
pub struct SoundFile {
    pub file_name: String,
    pub total_time: u128,
}

impl View for SoundFile {
    type V = (Seq<char>, u128);

    open spec fn view(&self) -> (Seq<char>, u128) {
        (self.file_name@, self.total_time)
    }
}

/// The record of the file called `file_name` that plays for `total_time`
/// nanoseconds, under the threshold `threshold`.
pub open spec fn scanned_tone(file_name: Seq<char>, total_time: u128, threshold: u16) -> ToneView {
    ToneView {
        name: file_stem(file_name),
        total_time,
        media_kind: kind_of(total_time, threshold),
        protected_content: false,
        pid: pid_of_name(file_name),
        guid: guid_of_name(file_name),
    }
}

/// The inventory of a listing: each file's record under the file's name.
/// Where a name occurs more than once the last file of that name counts.
pub open spec fn scanned_map(files: Seq<(Seq<char>, u128)>, threshold: u16) -> Map<
    Seq<char>,
    ToneView,
>
    decreases files.len(),
{
    if files.len() == 0 {
        Map::empty()
    } else {
        scanned_map(files.drop_last(), threshold).insert(
            files.last().0,
            scanned_tone(files.last().0, files.last().1, threshold),
        )
    }
}

/// The files of `files` as mathematical values.
pub open spec fn file_views(files: Seq<SoundFile>) -> Seq<(Seq<char>, u128)> {
    files.map_values(|file: SoundFile| file@)
}

/// The record of one sound file: its name without the extension, its playing
/// time, its kind under the threshold, and the identity of its file name. No
/// record made here is marked as protected.
pub fn scan_file(file: &SoundFile, alerts_threshold: u16) -> (tone: Tone)
    ensures
        tone@ == scanned_tone(file.file_name@, file.total_time, alerts_threshold),
{
    let (pid, guid) = synthesize(file.file_name.as_str());
    Tone {
        name: display_name(file.file_name.as_str()),
        total_time: file.total_time,
        media_kind: classify(file.total_time, alerts_threshold),
        protected_content: false,
        pid,
        guid,
    }
}

/// The inventory of the sound files of a directory, given as the listing of
/// the directory with the playing time of each file. Every file is filed
/// under its file name; whatever the order of the listing, the inventory
/// keeps the files in the order of their names.
pub fn tones_in_directory(files: &Vec<SoundFile>, alerts_threshold: &u16) -> (tones: Ringtones)
    ensures
        tones.wf(),
        tones@ == scanned_map(file_views(files@), *alerts_threshold),
{
    let mut tones = Ringtones::new();
    let mut i: usize = 0;
    while i < files.len()
        invariant
            i <= files.len(),
            tones.wf(),
            tones@ == scanned_map(file_views(files@).subrange(0, i as int), *alerts_threshold),
        decreases files.len() - i,
    {
        let file = &files[i];
        let tone = scan_file(file, *alerts_threshold);
        proof {
            let read = file_views(files@).subrange(0, i + 1);
            assert(read.drop_last() =~= file_views(files@).subrange(0, i as int));
            assert(read.last() == files@[i as int]@);
        }
        tones.insert(file.file_name.clone(), tone);
        i = i + 1;
    }
    assert(file_views(files@).subrange(0, files.len() as int) =~= file_views(files@));
    tones
}

/// Whether some file of `files` is called `name`.
pub open spec fn lists_name(files: Seq<(Seq<char>, u128)>, name: Seq<char>) -> bool {
    exists|i: int| 0 <= i < files.len() && (#[trigger] files[i]).0 == name
}

/// The inventory of a listing holds the names of the listed files and no
/// other, and under each name the record of the last file of that name.
pub proof fn lemma_scanned_map(files: Seq<(Seq<char>, u128)>, threshold: u16)
    ensures
        forall|name: Seq<char>|
            #![trigger scanned_map(files, threshold).contains_key(name)]
            #![trigger lists_name(files, name)]
            scanned_map(files, threshold).contains_key(name) <==> lists_name(files, name),
        forall|i: int|
            0 <= i < files.len() && (forall|j: int| i < j < files.len() ==> (#[trigger] files[j]).0
                != files[i].0) ==> scanned_map(files, threshold)[(#[trigger] files[i]).0] == scanned_tone(
                files[i].0,
                files[i].1,
                threshold,
            ),
    decreases files.len(),
{
    if files.len() > 0 {
        let earlier = files.drop_last();
        lemma_scanned_map(earlier, threshold);
        assert forall|name: Seq<char>| scanned_map(files, threshold).contains_key(name) <==> lists_name(
            files,
            name,
        ) by {
            if lists_name(earlier, name) {
                let i = choose|i: int| 0 <= i < earlier.len() && (#[trigger] earlier[i]).0 == name;
                assert(files[i].0 == name);
            }
            if lists_name(files, name) {
                let i = choose|i: int| 0 <= i < files.len() && (#[trigger] files[i]).0 == name;
                if i < earlier.len() {
                    assert(earlier[i].0 == name);
                }
            }
            if name == files.last().0 {
                assert(files[files.len() - 1].0 == name);
            }
        }
        assert forall|i: int|
            0 <= i < files.len() && (forall|j: int| i < j < files.len() ==> (#[trigger] files[j]).0
                != files[i].0) implies scanned_map(files, threshold)[(#[trigger] files[i]).0]
            == scanned_tone(files[i].0, files[i].1, threshold) by {
            if i < earlier.len() {
                assert(files[files.len() - 1].0 != files[i].0);
                assert(earlier[i] == files[i]);
                assert forall|j: int| i < j < earlier.len() implies (#[trigger] earlier[j]).0
                    != earlier[i].0 by {
                    assert(files[j].0 != files[i].0);
                }
            }
        }
    }
}

/// Whether no two files of `files` have the same name.
pub open spec fn distinct_names(files: Seq<(Seq<char>, u128)>) -> bool {
    forall|i: int, j: int|
        0 <= i < j < files.len() ==> (#[trigger] files[i]).0 != (#[trigger] files[j]).0
}

/// The order of a listing does not matter: two listings of the same files,
/// each file under a name of its own, give the same inventory.
pub proof fn lemma_listing_order_is_immaterial(
    first: Seq<(Seq<char>, u128)>,
    second: Seq<(Seq<char>, u128)>,
    threshold: u16,
)
    requires
        distinct_names(first),
        distinct_names(second),
        forall|file: (Seq<char>, u128)| first.contains(file) <==> second.contains(file),
    ensures
        scanned_map(first, threshold) == scanned_map(second, threshold),
{
    let a = scanned_map(first, threshold);
    let b = scanned_map(second, threshold);
    lemma_scanned_map(first, threshold);
    lemma_scanned_map(second, threshold);
    assert forall|name: Seq<char>| a.contains_key(name) implies b.contains_key(name) && a[name] == b[name] by {
        assert(lists_name(first, name));
        let i = choose|i: int| 0 <= i < first.len() && (#[trigger] first[i]).0 == name;
        assert(first.contains(first[i]));
        let j = choose|j: int| 0 <= j < second.len() && second[j] == first[i];
        assert(second[j].0 == name);
    }
    assert forall|name: Seq<char>| b.contains_key(name) implies a.contains_key(name) by {
        assert(lists_name(second, name));
        let j = choose|j: int| 0 <= j < second.len() && (#[trigger] second[j]).0 == name;
        assert(second.contains(second[j]));
        let i = choose|i: int| 0 <= i < first.len() && first[i] == second[j];
        assert(first[i].0 == name);
    }
    assert(a =~= b);
}

} // verus!
