//! The rules of a file organizer: which category a file belongs to by its
//! extension, and how a list of files is grouped by category. Reading
//! directories and moving files are left to the caller.

use vstd::prelude::*;
use crate::text::{lowercase, str_equals, to_lowercase};

verus! {

/// Where files are taken from, where they are put, and the category of
/// each known extension. An extension belongs to the category of the first
/// pair that names it.
pub struct FileOrganizer {
    pub source_dir: String,
    pub target_dir: String,
    pub file_types: Vec<(String, String)>,
}

/// Pairs of texts, as characters.
pub open spec fn pairs_view(pairs: Seq<(String, String)>) -> Seq<(Seq<char>, Seq<char>)> {
    Seq::new(pairs.len(), |i: int| (pairs[i].0@, pairs[i].1@))
}

/// The index of the first pair at or after `from` whose first part is
/// `key` (the length where there is none).
pub open spec fn pair_position(pairs: Seq<(Seq<char>, Seq<char>)>, key: Seq<char>, from: int) -> int
    decreases pairs.len() - from,
{
    if from < 0 || from >= pairs.len() {
        pairs.len() as int
    } else if pairs[from].0 == key {
        from
    } else {
        pair_position(pairs, key, from + 1)
    }
}

/// The pairs after `key` is given `value`: the first pair for the key is
/// replaced, or a new pair is added at the end.
pub open spec fn with_pair(
    pairs: Seq<(Seq<char>, Seq<char>)>,
    key: Seq<char>,
    value: Seq<char>,
) -> Seq<(Seq<char>, Seq<char>)> {
    let at = pair_position(pairs, key, 0);
    if at < pairs.len() {
        pairs.update(at, (key, value))
    } else {
        pairs.push((key, value))
    }
}

/// The pairs after each pair of `more` from `from` on is put in.
pub open spec fn with_pairs(
    pairs: Seq<(Seq<char>, Seq<char>)>,
    more: Seq<(Seq<char>, Seq<char>)>,
    upto: int,
) -> Seq<(Seq<char>, Seq<char>)>
    decreases upto,
{
    if upto <= 0 || upto > more.len() {
        pairs
    } else {
        with_pair(with_pairs(pairs, more, upto - 1), more[upto - 1].0, more[upto - 1].1)
    }
}

/// The known extensions, each with its category.
pub open spec fn known_types() -> Seq<(Seq<char>, Seq<char>)> {
    seq![
        ("txt"@, "Documents"@),
        ("doc"@, "Documents"@),
        ("docx"@, "Documents"@),
        ("pdf"@, "Documents"@),
        ("rtf"@, "Documents"@),
        ("jpg"@, "Images"@),
        ("jpeg"@, "Images"@),
        ("png"@, "Images"@),
        ("gif"@, "Images"@),
        ("bmp"@, "Images"@),
        ("svg"@, "Images"@),
        ("mp3"@, "Audio"@),
        ("wav"@, "Audio"@),
        ("flac"@, "Audio"@),
        ("aac"@, "Audio"@),
        ("ogg"@, "Audio"@),
        ("mp4"@, "Videos"@),
        ("avi"@, "Videos"@),
        ("mkv"@, "Videos"@),
        ("mov"@, "Videos"@),
        ("wmv"@, "Videos"@),
        ("zip"@, "Archives"@),
        ("rar"@, "Archives"@),
        ("7z"@, "Archives"@),
        ("tar"@, "Archives"@),
        ("gz"@, "Archives"@),
        ("exe"@, "Programs"@),
        ("msi"@, "Programs"@),
        ("deb"@, "Programs"@),
        ("dmg"@, "Programs"@),
    ]
}

/// The category of an extension, which is written in small letters:
/// that of the first pair that names it, and `Others` where none does.
pub open spec fn category_of(pairs: Seq<(Seq<char>, Seq<char>)>, extension: Seq<char>) -> Seq<
    char,
> {
    let at = pair_position(pairs, extension, 0);
    if at < pairs.len() {
        pairs[at].1
    } else {
        "Others"@
    }
}

/// `pair_position` stays within the list.
pub proof fn lemma_pair_position(pairs: Seq<(Seq<char>, Seq<char>)>, key: Seq<char>, from: int)
    requires
        0 <= from <= pairs.len(),
    ensures
        from <= pair_position(pairs, key, from) <= pairs.len(),
        pair_position(pairs, key, from) < pairs.len() ==> pairs[pair_position(pairs, key, from)].0
            == key,
    decreases pairs.len() - from,
{
    if from < pairs.len() {
        lemma_pair_position(pairs, key, from + 1);
    }
}

impl FileOrganizer {
    /// The index of the first pair for `extension`.
    pub fn type_index(&self, extension: &str) -> (at: usize)
        ensures
            at == pair_position(pairs_view(self.file_types@), extension@, 0),
            at <= self.file_types.len(),
    {
        let ghost view = pairs_view(self.file_types@);
        proof {
            lemma_pair_position(view, extension@, 0);
        }
        let mut i: usize = 0;
        while i < self.file_types.len()
            invariant
                i <= self.file_types.len(),
                view == pairs_view(self.file_types@),
                pair_position(view, extension@, 0) == pair_position(view, extension@, i as int),
            decreases self.file_types.len() - i,
        {
            if str_equals(self.file_types[i].0.as_str(), extension) {
                return i;
            }
            i += 1;
        }
        i
    }

    /// Gives `extension` the category `category`, whatever it had before.
    pub fn set_category(&mut self, extension: &str, category: &str)
        ensures
            pairs_view(final(self).file_types@) == with_pair(
                pairs_view(old(self).file_types@),
                extension@,
                category@,
            ),
            final(self).source_dir == old(self).source_dir,
            final(self).target_dir == old(self).target_dir,
    {
        let at = self.type_index(extension);
        if at < self.file_types.len() {
            self.file_types[at] = (extension.to_owned(), category.to_owned());
        } else {
            self.file_types.push((extension.to_owned(), category.to_owned()));
        }
        proof {
            assert(pairs_view(self.file_types@) =~= with_pair(
                pairs_view(old(self).file_types@),
                extension@,
                category@,
            ));
        }
    }

    /// An organizer from `source` to `target` that knows the usual
    /// extensions of documents, images, audio, videos, archives and
    /// programs.
    pub fn new(source: &str, target: &str) -> (organizer: FileOrganizer)
        ensures
            organizer.source_dir@ == source@,
            organizer.target_dir@ == target@,
            pairs_view(organizer.file_types@) == with_pairs(
                Seq::empty(),
                known_types(),
                known_types().len() as int,
            ),
    {
        let mut organizer = FileOrganizer {
            source_dir: source.to_owned(),
            target_dir: target.to_owned(),
            file_types: Vec::new(),
        };
        proof {
            assert(pairs_view(organizer.file_types@) =~= Seq::empty());
            reveal_with_fuel(with_pairs, 32);
        }
        organizer.set_category("txt", "Documents");
        organizer.set_category("doc", "Documents");
        organizer.set_category("docx", "Documents");
        organizer.set_category("pdf", "Documents");
        organizer.set_category("rtf", "Documents");
        organizer.set_category("jpg", "Images");
        organizer.set_category("jpeg", "Images");
        organizer.set_category("png", "Images");
        organizer.set_category("gif", "Images");
        organizer.set_category("bmp", "Images");
        organizer.set_category("svg", "Images");
        organizer.set_category("mp3", "Audio");
        organizer.set_category("wav", "Audio");
        organizer.set_category("flac", "Audio");
        organizer.set_category("aac", "Audio");
        organizer.set_category("ogg", "Audio");
        organizer.set_category("mp4", "Videos");
        organizer.set_category("avi", "Videos");
        organizer.set_category("mkv", "Videos");
        organizer.set_category("mov", "Videos");
        organizer.set_category("wmv", "Videos");
        organizer.set_category("zip", "Archives");
        organizer.set_category("rar", "Archives");
        organizer.set_category("7z", "Archives");
        organizer.set_category("tar", "Archives");
        organizer.set_category("gz", "Archives");
        organizer.set_category("exe", "Programs");
        organizer.set_category("msi", "Programs");
        organizer.set_category("deb", "Programs");
        organizer.set_category("dmg", "Programs");
        organizer
    }

    /// The category of an extension that is written in small letters.
    pub fn category_of_lowercase(&self, extension: &str) -> (category: String)
        ensures
            category@ == category_of(pairs_view(self.file_types@), extension@),
    {
        let at = self.type_index(extension);
        if at < self.file_types.len() {
            self.file_types[at].1.clone()
        } else {
            "Others".to_owned()
        }
    }

    /// The category of an extension, whatever the case of its letters.
    pub fn get_file_category(&self, extension: &str) -> (category: String)
        ensures
            category@ == category_of(pairs_view(self.file_types@), lowercase(extension@)),
    {
        let lowered = to_lowercase(extension);
        self.category_of_lowercase(lowered.as_str())
    }
}

/// The groups as characters and indices.
pub open spec fn groups_view(groups: Seq<(String, Vec<usize>)>) -> Seq<(Seq<char>, Seq<usize>)> {
    Seq::new(groups.len(), |i: int| (groups[i].0@, groups[i].1@))
}

/// The index of the first group at or after `from` that is named `name`
/// (the length where there is none).
pub open spec fn group_position(groups: Seq<(Seq<char>, Seq<usize>)>, name: Seq<char>, from: int) -> int
    decreases groups.len() - from,
{
    if from < 0 || from >= groups.len() {
        groups.len() as int
    } else if groups[from].0 == name {
        from
    } else {
        group_position(groups, name, from + 1)
    }
}

/// The groups after the file `file` is put in the group `name`, which is
/// added at the end where it is new.
pub open spec fn grouped(groups: Seq<(Seq<char>, Seq<usize>)>, name: Seq<char>, file: usize) -> Seq<
    (Seq<char>, Seq<usize>),
> {
    let at = group_position(groups, name, 0);
    if at < groups.len() {
        groups.update(at, (name, groups[at].1.push(file)))
    } else {
        groups.push((name, seq![file]))
    }
}

/// The groups of the first `upto` files, by their categories.
pub open spec fn plan_of(categories: Seq<Seq<char>>, upto: int) -> Seq<(Seq<char>, Seq<usize>)>
    decreases upto,
{
    if upto <= 0 || upto > categories.len() {
        Seq::empty()
    } else {
        grouped(plan_of(categories, upto - 1), categories[upto - 1], (upto - 1) as usize)
    }
}

/// The texts as characters.
pub open spec fn names_view(names: Seq<String>) -> Seq<Seq<char>> {
    Seq::new(names.len(), |i: int| names[i]@)
}

/// Groups files by category: `categories` holds the category of each
/// file, and every group lists the indices of its files in their order.
/// The groups stand in the order in which their categories first occur.
pub fn plan_organization(categories: &Vec<String>) -> (groups: Vec<(String, Vec<usize>)>)
    ensures
        groups_view(groups@) == plan_of(names_view(categories@), categories.len() as int),
{
    let mut groups: Vec<(String, Vec<usize>)> = Vec::new();
    let mut i: usize = 0;
    proof {
        assert(groups_view(groups@) =~= Seq::empty());
    }
    while i < categories.len()
        invariant
            i <= categories.len(),
            groups_view(groups@) == plan_of(names_view(categories@), i as int),
        decreases categories.len() - i,
    {
        let ghost before = groups_view(groups@);
        let name = categories[i].as_str();
        let mut at: usize = 0;
        while at < groups.len() && !str_equals(groups[at].0.as_str(), name)
            invariant
                at <= groups.len(),
                before == groups_view(groups@),
                group_position(before, name@, 0) == group_position(before, name@, at as int),
            decreases groups.len() - at,
        {
            at += 1;
        }
        if at < groups.len() {
            groups[at].1.push(i);
            proof {
                assert(groups[at as int].0@ == name@);
                assert(groups_view(groups@) =~= grouped(before, name@, i));
            }
        } else {
            let mut files: Vec<usize> = Vec::new();
            files.push(i);
            groups.push((name.to_owned(), files));
            proof {
                assert(groups_view(groups@) =~= grouped(before, name@, i));
            }
        }
        proof {
            assert(names_view(categories@)[i as int] == name@);
        }
        i += 1;
    }
    groups
}

} // verus!
