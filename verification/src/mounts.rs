//! Where the file systems of a device are mounted.
//!
//! A file system of a device is mounted from the device itself, from one of its
//! partitions, or from a device mapper volume on top of it (an encrypted one, say).

use vstd::prelude::*;
use crate::text;

verus! {

/// A device that sits on top of the monitored one, as `/sys/block/<dev>/holders` lists
/// it.
#[derive(Debug)]
pub struct Holder {
    /// The kernel's name of the holder, such as `dm-0`.
    pub name: String,
    /// The text of its `dm/name` attribute, where that could be read.
    pub mapper_name: Option<String>,
}

/// A holder, as contracts see it: its name and the text of its mapper name.
pub type HolderModel = (Seq<char>, Option<Seq<char>>);

impl Holder {
    pub open spec fn model(self) -> HolderModel {
        (
            self.name@,
            match self.mapper_name {
                Some(m) => Some(m@),
                None => None,
            },
        )
    }
}

pub open spec fn holder_models(v: Seq<Holder>) -> Seq<HolderModel> {
    Seq::new(v.len(), |i: int| v[i].model())
}

/// A holder is a device mapper volume.
pub open spec fn is_mapper(name: Seq<char>) -> bool {
    "dm-"@.is_prefix_of(name)
}

/// The device files of the partitions among the entries of the device's sysfs
/// directory: those whose names start with the name of the device.
pub open spec fn partition_files(device: Seq<char>, entries: Seq<Seq<char>>) -> Seq<Seq<char>>
    decreases entries.len(),
{
    if entries.len() == 0 {
        seq![]
    } else {
        let rest = partition_files(device, entries.drop_last());
        if device.is_prefix_of(entries.last()) {
            rest.push("/dev/"@ + entries.last())
        } else {
            rest
        }
    }
}

/// The device file of the volume that a holder is, if it is one and its name is known.
pub open spec fn mapper_file(holder: HolderModel) -> Option<Seq<char>> {
    match holder.1 {
        Some(m) => if is_mapper(holder.0) && text::trim(m).len() > 0 {
            Some("/dev/mapper/"@ + text::trim(m))
        } else {
            None
        },
        None => None,
    }
}

/// The device files of the volumes among the holders.
pub open spec fn mapper_files(holders: Seq<HolderModel>) -> Seq<Seq<char>>
    decreases holders.len(),
{
    if holders.len() == 0 {
        seq![]
    } else {
        let rest = mapper_files(holders.drop_last());
        match mapper_file(holders.last()) {
            Some(f) => rest.push(f),
            None => rest,
        }
    }
}

/// Every device file from which a file system of the device can be mounted.
pub open spec fn candidates(
    device: Seq<char>,
    entries: Seq<Seq<char>>,
    holders: Seq<HolderModel>,
) -> Seq<Seq<char>> {
    seq!["/dev/"@ + device] + partition_files(device, entries) + mapper_files(holders)
}

/// What a line of the mount table says: the mounted device file and the mount point.
pub open spec fn mount_entry(line: Seq<char>) -> Option<(Seq<char>, Seq<char>)> {
    let parts = text::words(line);
    if parts.len() < 2 {
        None
    } else {
        Some((parts[0], parts[1]))
    }
}

/// The entries among the lines of the mount table whose device file is one of those
/// given, in the order of the table.
pub open spec fn matching_entries(files: Seq<Seq<char>>, lines: Seq<Seq<char>>) -> Seq<
    (Seq<char>, Seq<char>),
>
    decreases lines.len(),
{
    if lines.len() == 0 {
        seq![]
    } else {
        let rest = matching_entries(files, lines.drop_last());
        match mount_entry(lines.last()) {
            Some(e) => if files.contains(e.0) {
                rest.push(e)
            } else {
                rest
            },
            None => rest,
        }
    }
}

/// The mounts of a device: the entries of the mount table for one of its candidate
/// files; none, where the table could not be read.
pub open spec fn mounts_of(
    device: Seq<char>,
    entries: Seq<Seq<char>>,
    holders: Seq<HolderModel>,
    mount_table: Option<Seq<char>>,
) -> Seq<(Seq<char>, Seq<char>)> {
    match mount_table {
        Some(t) => matching_entries(candidates(device, entries, holders), text::lines(t)),
        None => seq![],
    }
}

/// The contents of a list of pairs of strings.
pub open spec fn pairs(v: Seq<(String, String)>) -> Seq<(Seq<char>, Seq<char>)> {
    Seq::new(v.len(), |i: int| (v[i].0@, v[i].1@))
}

/// Whether a holder is a device mapper volume, so that its mapper name matters.
pub fn is_mapper_holder(name: &str) -> (b: bool)
    ensures
        b == is_mapper(name@),
{
    text::starts_with(name, "dm-")
}

fn contains_text(v: &Vec<String>, s: &String) -> (b: bool)
    ensures
        b == text::strings(v@).contains(s@),
{
    let ghost model = text::strings(v@);
    for i in 0..v.len()
        invariant
            model == text::strings(v@),
            forall|k: int| 0 <= k < i ==> model[k] != s@,
    {
        if v[i] == *s {
            assert(model[i as int] == s@);
            return true;
        }
    }
    false
}

/// Every device file from which a file system of the device can be mounted.
pub fn candidate_files(device: &str, entries: &Vec<String>, holders: &Vec<Holder>) -> (r: Vec<
    String,
>)
    ensures
        text::strings(r@) == candidates(
            device@,
            text::strings(entries@),
            holder_models(holders@),
        ),
{
    let mut r: Vec<String> = Vec::new();
    r.push(text::joined("/dev/", device));
    let ghost own = seq!["/dev/"@ + device@];
    let ghost es = text::strings(entries@);
    let ghost hs = holder_models(holders@);
    assert(es.take(0) =~= seq![]);
    assert(text::strings(r@) =~= own + partition_files(device@, es.take(0)));
    for i in 0..entries.len()
        invariant
            es == text::strings(entries@),
            text::strings(r@) == own + partition_files(device@, es.take(i as int)),
    {
        let ghost before = r@;
        assert(es.take(i + 1).drop_last() =~= es.take(i as int));
        assert(es[i as int] == entries@[i as int]@);
        if text::starts_with(entries[i].as_str(), device) {
            r.push(text::joined("/dev/", entries[i].as_str()));
            assert(text::strings(r@) =~= text::strings(before).push("/dev/"@ + es[i as int]));
        }
        assert(text::strings(r@) =~= own + partition_files(device@, es.take(i + 1)));
    }
    assert(es.take(entries@.len() as int) =~= es);
    let ghost direct = own + partition_files(device@, es);
    assert(hs.take(0) =~= seq![]);
    assert(text::strings(r@) =~= direct + mapper_files(hs.take(0)));
    for i in 0..holders.len()
        invariant
            hs == holder_models(holders@),
            text::strings(r@) == direct + mapper_files(hs.take(i as int)),
    {
        let ghost before = r@;
        assert(hs.take(i + 1).drop_last() =~= hs.take(i as int));
        assert(hs[i as int] == holders@[i as int].model());
        if is_mapper_holder(holders[i].name.as_str()) {
            if let Some(m) = &holders[i].mapper_name {
                let name = text::trimmed(&text::chars_of(m.as_str()));
                if name.len() > 0 {
                    r.push(text::joined("/dev/mapper/", text::string_of(&name).as_str()));
                    assert(text::strings(r@) =~= text::strings(before).push(
                        "/dev/mapper/"@ + text::trim(m@),
                    ));
                }
            }
        }
        assert(text::strings(r@) =~= direct + mapper_files(hs.take(i + 1)));
    }
    assert(hs.take(holders@.len() as int) =~= hs);
    r
}

/// Finds the mounts of a device: pairs of the mounted device file and its mount point.
///
/// `entries` are the names in `/sys/block/<dev>`, `holders` what
/// `/sys/block/<dev>/holders` lists, and `mount_table` the text of `/proc/mounts`, or
/// `None` where that cannot be read. A directory that cannot be read counts as empty.
pub fn find_mount_points(
    device: &str,
    entries: &Vec<String>,
    holders: &Vec<Holder>,
    mount_table: Option<&str>,
) -> (r: Vec<(String, String)>)
    ensures
        pairs(r@) == mounts_of(
            device@,
            text::strings(entries@),
            holder_models(holders@),
            text::optional(mount_table),
        ),
{
    let mut r: Vec<(String, String)> = Vec::new();
    let table = match mount_table {
        Some(t) => t,
        None => {
            assert(pairs(r@) =~= seq![]);
            return r;
        },
    };
    let files = candidate_files(device, entries, holders);
    let ghost fs = text::strings(files@);
    let lines = text::split_lines(&text::chars_of(table));
    let ghost ls = text::lines(table@);
    assert(ls.take(0) =~= seq![]);
    assert(pairs(r@) =~= seq![]);
    for i in 0..lines.len()
        invariant
            fs == text::strings(files@),
            ls == text::contents(lines@),
            pairs(r@) == matching_entries(fs, ls.take(i as int)),
    {
        let ghost before = r@;
        assert(ls.take(i + 1).drop_last() =~= ls.take(i as int));
        assert(ls[i as int] == lines@[i as int]@);
        let parts = text::split_words(&lines[i]);
        let ghost ps = text::words(ls[i as int]);
        if parts.len() >= 2 {
            assert(ps[0] == parts@[0]@ && ps[1] == parts@[1]@);
            let mount_dev = text::string_of(&parts[0]);
            if contains_text(&files, &mount_dev) {
                let mount_point = text::string_of(&parts[1]);
                r.push((mount_dev, mount_point));
                assert(pairs(r@) =~= pairs(before).push((ps[0], ps[1])));
            }
        }
    }
    assert(ls.take(lines@.len() as int) =~= ls);
    r
}

/// How a mount is written in the state file.
pub open spec fn label(mount: (Seq<char>, Seq<char>)) -> Seq<char> {
    mount.0 + " -> "@ + mount.1
}

/// How mounts are written in the state file, in the same order.
pub open spec fn labels(mounts: Seq<(Seq<char>, Seq<char>)>) -> Seq<Seq<char>> {
    Seq::new(mounts.len(), |i: int| label(mounts[i]))
}

/// How the mounts are written in the state file, in the same order.
pub fn mount_labels(mounts: &Vec<(String, String)>) -> (r: Vec<String>)
    ensures
        text::strings(r@) == labels(pairs(mounts@)),
{
    let mut r: Vec<String> = Vec::new();
    for i in 0..mounts.len()
        invariant
            r.len() == i,
            forall|k: int|
                0 <= k < i ==> (#[trigger] r@[k])@ == label((mounts@[k].0@, mounts@[k].1@)),
    {
        let mut s = text::joined(mounts[i].0.as_str(), " -> ");
        s.append(mounts[i].1.as_str());
        r.push(s);
    }
    assert(text::strings(r@) =~= labels(pairs(mounts@)));
    r
}

/// A mount is found exactly if some line of the mount table says it and its device file
/// is one of the candidates.
pub proof fn law_mounts_are_those_of_the_candidates(
    device: Seq<char>,
    entries: Seq<Seq<char>>,
    holders: Seq<HolderModel>,
    mount_table: Seq<char>,
    mount: (Seq<char>, Seq<char>),
)
    ensures
        mounts_of(device, entries, holders, Some(mount_table)).contains(mount) <==> {
            &&& candidates(device, entries, holders).contains(mount.0)
            &&& exists|i: int|
                0 <= i < text::lines(mount_table).len() && mount_entry(
                    #[trigger] text::lines(mount_table)[i],
                ) == Some(mount)
        },
{
    lemma_matching_entries(
        candidates(device, entries, holders),
        text::lines(mount_table),
        mount,
    );
}

proof fn lemma_matching_entries(
    files: Seq<Seq<char>>,
    lines: Seq<Seq<char>>,
    mount: (Seq<char>, Seq<char>),
)
    ensures
        matching_entries(files, lines).contains(mount) <==> {
            &&& files.contains(mount.0)
            &&& exists|i: int|
                0 <= i < lines.len() && mount_entry(#[trigger] lines[i]) == Some(mount)
        },
    decreases lines.len(),
{
    if lines.len() > 0 {
        let init = lines.drop_last();
        let rest = matching_entries(files, init);
        lemma_matching_entries(files, init, mount);
        assert forall|i: int| 0 <= i < init.len() implies #[trigger] lines[i] == init[i] by {}
        if matching_entries(files, lines).contains(mount) {
            if rest.contains(mount) {
                let i = choose|i: int|
                    0 <= i < init.len() && mount_entry(#[trigger] init[i]) == Some(mount);
                assert(mount_entry(lines[i]) == Some(mount));
            } else {
                assert(mount_entry(lines[lines.len() - 1]) == Some(mount));
            }
        }
        if files.contains(mount.0) && exists|i: int|
            0 <= i < lines.len() && mount_entry(#[trigger] lines[i]) == Some(mount) {
            let i = choose|i: int|
                0 <= i < lines.len() && mount_entry(#[trigger] lines[i]) == Some(mount);
            if i < init.len() {
                assert(mount_entry(init[i]) == Some(mount));
                let k = choose|k: int| 0 <= k < rest.len() && rest[k] == mount;
                assert(matching_entries(files, lines)[k] == mount);
            } else {
                assert(matching_entries(files, lines).last() == mount);
            }
        }
    }
}

/// Whatever partitions and holders there are, the device itself is a candidate, so that
/// a file system without a partition table is found.
pub proof fn law_device_itself_is_a_candidate(
    device: Seq<char>,
    entries: Seq<Seq<char>>,
    holders: Seq<HolderModel>,
)
    ensures
        candidates(device, entries, holders).contains("/dev/"@ + device),
{
    assert(candidates(device, entries, holders)[0] == "/dev/"@ + device);
}

/// Every entry of the device's directory whose name starts with that of the device is a
/// candidate.
pub proof fn law_partitions_are_candidates(
    device: Seq<char>,
    entries: Seq<Seq<char>>,
    holders: Seq<HolderModel>,
    i: int,
)
    requires
        0 <= i < entries.len(),
        device.is_prefix_of(entries[i]),
    ensures
        candidates(device, entries, holders).contains("/dev/"@ + entries[i]),
{
    lemma_partition_files(device, entries, i);
    let files = partition_files(device, entries);
    let k = choose|k: int| 0 <= k < files.len() && files[k] == "/dev/"@ + entries[i];
    assert(candidates(device, entries, holders)[k + 1] == files[k]);
}

proof fn lemma_partition_files(device: Seq<char>, entries: Seq<Seq<char>>, i: int)
    requires
        0 <= i < entries.len(),
        device.is_prefix_of(entries[i]),
    ensures
        partition_files(device, entries).contains("/dev/"@ + entries[i]),
    decreases entries.len(),
{
    let files = partition_files(device, entries);
    if i == entries.len() - 1 {
        assert(files.last() == "/dev/"@ + entries[i]);
    } else {
        let rest = partition_files(device, entries.drop_last());
        lemma_partition_files(device, entries.drop_last(), i);
        let k = choose|k: int| 0 <= k < rest.len() && rest[k] == "/dev/"@ + entries[i];
        assert(files[k] == rest[k]);
    }
}

/// Every device mapper volume on top of the device whose name is known is a candidate,
/// so that an encrypted file system is found.
pub proof fn law_mapper_volumes_are_candidates(
    device: Seq<char>,
    entries: Seq<Seq<char>>,
    holders: Seq<HolderModel>,
    i: int,
)
    requires
        0 <= i < holders.len(),
        mapper_file(holders[i]) is Some,
    ensures
        candidates(device, entries, holders).contains(mapper_file(holders[i])->0),
{
    lemma_mapper_files(holders, i);
    let files = mapper_files(holders);
    let k = choose|k: int| 0 <= k < files.len() && files[k] == mapper_file(holders[i])->0;
    assert(candidates(device, entries, holders)[1 + partition_files(device, entries).len() + k]
        == files[k]);
}

proof fn lemma_mapper_files(holders: Seq<HolderModel>, i: int)
    requires
        0 <= i < holders.len(),
        mapper_file(holders[i]) is Some,
    ensures
        mapper_files(holders).contains(mapper_file(holders[i])->0),
    decreases holders.len(),
{
    let files = mapper_files(holders);
    if i == holders.len() - 1 {
        assert(files.last() == mapper_file(holders[i])->0);
    } else {
        let rest = mapper_files(holders.drop_last());
        lemma_mapper_files(holders.drop_last(), i);
        let k = choose|k: int| 0 <= k < rest.len() && rest[k] == mapper_file(holders[i])->0;
        assert(files[k] == rest[k]);
    }
}

/// The mounts of two runs of lines of the table are those of the first and then those of the
/// second.
pub proof fn law_mounts_follow_the_table(
    files: Seq<Seq<char>>,
    a: Seq<Seq<char>>,
    b: Seq<Seq<char>>,
)
    ensures
        matching_entries(files, a + b) == matching_entries(files, a) + matching_entries(files, b),
    decreases b.len(),
{
    if b.len() == 0 {
        assert(a + b =~= a);
        assert(matching_entries(files, a) + matching_entries(files, b) =~= matching_entries(
            files,
            a,
        ));
    } else {
        law_mounts_follow_the_table(files, a, b.drop_last());
        assert((a + b).drop_last() =~= a + b.drop_last());
        assert((a + b).last() == b.last());
        assert(matching_entries(files, a + b) =~= matching_entries(files, a) + matching_entries(
            files,
            b,
        ));
    }
}

/// A line of the table gives its first two words, if the first is one of the files, and nothing
/// otherwise.
pub proof fn law_line_gives_its_mount(files: Seq<Seq<char>>, line: Seq<char>)
    ensures
        ({
            let parts = text::words(line);
            let found = matching_entries(files, seq![line]);
            &&& parts.len() >= 2 && files.contains(parts[0]) ==> found == seq![
                (parts[0], parts[1]),
            ]
            &&& parts.len() < 2 || !files.contains(parts[0]) ==> found.len() == 0
        }),
{
    let one = seq![line];
    assert(one.drop_last() =~= seq![]);
    assert(matching_entries(files, one.drop_last()) =~= seq![]);
    let parts = text::words(line);
    if parts.len() >= 2 && files.contains(parts[0]) {
        assert(matching_entries(files, one) =~= seq![(parts[0], parts[1])]);
    }
}

/// The mounts of a device are found in the lines of the table; without a table there are none.
pub proof fn law_mounts_are_those_of_the_table(
    device: Seq<char>,
    entries: Seq<Seq<char>>,
    holders: Seq<HolderModel>,
    table: Seq<char>,
)
    ensures
        mounts_of(device, entries, holders, None).len() == 0,
        mounts_of(device, entries, holders, Some(table)) == matching_entries(
            candidates(device, entries, holders),
            text::lines(table),
        ),
{
}

/// Nothing is a candidate but the device itself, an entry that starts with its name, and a
/// device mapper volume on top of it by its name in `/dev/mapper`.
pub proof fn law_candidates_are_of_the_device(
    device: Seq<char>,
    entries: Seq<Seq<char>>,
    holders: Seq<HolderModel>,
    file: Seq<char>,
)
    requires
        candidates(device, entries, holders).contains(file),
    ensures
        ({
            ||| file == "/dev/"@ + device
            ||| exists|i: int|
                0 <= i < entries.len() && device.is_prefix_of(#[trigger] entries[i]) && file
                    == "/dev/"@ + entries[i]
            ||| exists|i: int|
                0 <= i < holders.len() && "dm-"@.is_prefix_of((#[trigger] holders[i]).0)
                    && holders[i].1 is Some && text::trim(holders[i].1->0).len() > 0 && file
                    == "/dev/mapper/"@ + text::trim(holders[i].1->0)
        }),
{
    let all = candidates(device, entries, holders);
    let k = choose|k: int| 0 <= k < all.len() && all[k] == file;
    let parts = partition_files(device, entries);
    let mapped = mapper_files(holders);
    if k == 0 {
    } else if k < 1 + parts.len() {
        assert(parts[k - 1] == file);
        lemma_partition_of(device, entries, k - 1);
    } else {
        assert(mapped[k - 1 - parts.len()] == file);
        lemma_mapper_of(holders, k - 1 - parts.len());
    }
}

proof fn lemma_partition_of(device: Seq<char>, entries: Seq<Seq<char>>, k: int)
    requires
        0 <= k < partition_files(device, entries).len(),
    ensures
        exists|i: int|
            0 <= i < entries.len() && device.is_prefix_of(#[trigger] entries[i])
                && partition_files(device, entries)[k] == "/dev/"@ + entries[i],
    decreases entries.len(),
{
    if entries.len() > 0 {
        let init = entries.drop_last();
        if k < partition_files(device, init).len() {
            lemma_partition_of(device, init, k);
            let i = choose|i: int|
                0 <= i < init.len() && device.is_prefix_of(#[trigger] init[i])
                    && partition_files(device, init)[k] == "/dev/"@ + init[i];
            assert(entries[i] == init[i]);
        } else {
            assert(device.is_prefix_of(entries[entries.len() - 1]));
        }
    }
}

proof fn lemma_mapper_of(holders: Seq<HolderModel>, k: int)
    requires
        0 <= k < mapper_files(holders).len(),
    ensures
        exists|i: int|
            0 <= i < holders.len() && "dm-"@.is_prefix_of((#[trigger] holders[i]).0)
                && holders[i].1 is Some && text::trim(holders[i].1->0).len() > 0 && mapper_files(
                holders,
            )[k] == "/dev/mapper/"@ + text::trim(holders[i].1->0),
    decreases holders.len(),
{
    if holders.len() > 0 {
        let init = holders.drop_last();
        if k < mapper_files(init).len() {
            lemma_mapper_of(init, k);
            let i = choose|i: int|
                0 <= i < init.len() && "dm-"@.is_prefix_of((#[trigger] init[i]).0)
                    && init[i].1 is Some && text::trim(init[i].1->0).len() > 0 && mapper_files(
                    init,
                )[k] == "/dev/mapper/"@ + text::trim(init[i].1->0);
            assert(holders[i] == init[i]);
        } else {
            assert(mapper_file(holders[holders.len() - 1]) is Some);
        }
    }
}

/// A holder of the device that the device mapper made, and whose name is not blank, is a
/// candidate by that name.
pub proof fn law_named_mapper_holder_is_a_candidate(
    device: Seq<char>,
    entries: Seq<Seq<char>>,
    holders: Seq<HolderModel>,
    i: int,
)
    requires
        0 <= i < holders.len(),
        "dm-"@.is_prefix_of(holders[i].0),
        holders[i].1 is Some,
        text::trim(holders[i].1->0).len() > 0,
    ensures
        candidates(device, entries, holders).contains(
            "/dev/mapper/"@ + text::trim(holders[i].1->0),
        ),
        is_mapper(holders[i].0),
{
    law_mapper_volumes_are_candidates(device, entries, holders, i);
}

/// Every mount has its label, in the same order: the device file, an arrow and the mount point.
pub proof fn law_every_mount_has_its_label(mounts: Seq<(Seq<char>, Seq<char>)>, i: int)
    requires
        0 <= i < mounts.len(),
    ensures
        labels(mounts).len() == mounts.len(),
        labels(mounts)[i] == mounts[i].0 + " -> "@ + mounts[i].1,
{
}

/// The models of holders and of mounts have every one of them, in order, and all that is known
/// of it.
pub proof fn law_models_have_every_holder_and_mount(
    holders: Seq<Holder>,
    mounts: Seq<(String, String)>,
)
    ensures
        holder_models(holders).len() == holders.len(),
        forall|i: int|
            0 <= i < holders.len() ==> {
                let (model, holder) = (#[trigger] holder_models(holders)[i], holders[i]);
                &&& model.0 == holder.name@
                &&& model.1 is Some <==> holder.mapper_name is Some
                &&& holder.mapper_name is Some ==> model.1->0 == holder.mapper_name->0@
            },
        pairs(mounts).len() == mounts.len(),
        forall|i: int|
            0 <= i < mounts.len() ==> (#[trigger] pairs(mounts)[i]).0 == mounts[i].0@
                && pairs(mounts)[i].1 == mounts[i].1@,
{
}

} // verus!
