//! The files that a mod offers, and which of them are chosen.
use crate::text;
use crate::text::texts;
use vstd::prelude::*;
use vstd::string::*;

verus! {

#[derive(Debug, Clone, PartialEq, Eq)]
pub struct ModFile {
    pub name: String,
    pub path: String,
    pub size: u64,
    pub is_selected: bool,
    pub archive_name: String,
}

#[derive(Debug, Clone, PartialEq, Eq)]
pub struct ModFileTree {
    pub files: Vec<ModFile>,
    pub total_files: usize,
    pub has_multiple_files: bool,
}

pub struct FileView {
    pub name: Seq<char>,
    pub path: Seq<char>,
    pub size: u64,
    pub is_selected: bool,
    pub archive_name: Seq<char>,
}

pub struct FileTreeView {
    pub files: Seq<FileView>,
    pub total_files: nat,
    pub has_multiple_files: bool,
}

impl View for ModFile {
    type V = FileView;

    open spec fn view(&self) -> FileView {
        FileView {
            name: self.name@,
            path: self.path@,
            size: self.size,
            is_selected: self.is_selected,
            archive_name: self.archive_name@,
        }
    }
}

pub open spec fn file_views(v: Seq<ModFile>) -> Seq<FileView> {
    v.map_values(|f: ModFile| f@)
}

impl View for ModFileTree {
    type V = FileTreeView;

    open spec fn view(&self) -> FileTreeView {
        FileTreeView {
            files: file_views(self.files@),
            total_files: self.total_files as nat,
            has_multiple_files: self.has_multiple_files,
        }
    }
}

pub open spec fn opt_tree(t: Option<ModFileTree>) -> Option<FileTreeView> {
    match t {
        Some(x) => Some(x@),
        None => None,
    }
}

/// A file of which only the name is known.
pub open spec fn named_file(name: Seq<char>, chosen: bool) -> FileView {
    FileView { name, path: name, size: 0, is_selected: chosen, archive_name: Seq::empty() }
}

/// The tree of the files with these names, of which `selected` are chosen.
pub open spec fn tree_of(available: Seq<Seq<char>>, selected: Seq<Seq<char>>) -> FileTreeView {
    FileTreeView {
        files: available.map_values(|n: Seq<char>| named_file(n, selected.contains(n))),
        total_files: available.len(),
        has_multiple_files: available.len() > 1,
    }
}

impl ModFile {
    pub fn duplicate(&self) -> (r: ModFile)
        ensures
            r@ == self@,
    {
        ModFile {
            name: self.name.clone(),
            path: self.path.clone(),
            size: self.size,
            is_selected: self.is_selected,
            archive_name: self.archive_name.clone(),
        }
    }
}

impl ModFileTree {
    /// The tree of the files with these names, of which `selected` are chosen.
    pub fn from_options(available: &Vec<String>, selected: &Vec<String>) -> (r: ModFileTree)
        ensures
            r@ == tree_of(texts(available@), texts(selected@)),
    {
        let mut files: Vec<ModFile> = Vec::new();
        let mut i: usize = 0;
        while i < available.len()
            invariant
                i <= available@.len(),
                files@.len() == i,
                forall|j: int|
                    0 <= j < i ==> (#[trigger] files@[j])@ == named_file(
                        available@[j]@,
                        texts(selected@).contains(available@[j]@),
                    ),
            decreases available@.len() - i,
        {
            let archive_name: String = String::new();
            assert(archive_name@ =~= Seq::<char>::empty());
            files.push(
                ModFile {
                    name: available[i].clone(),
                    path: available[i].clone(),
                    size: 0,
                    is_selected: text::holds_text(selected, available[i].as_str()),
                    archive_name,
                },
            );
            i = i + 1;
        }
        let total_files: usize = files.len();
        let r = ModFileTree { files, total_files, has_multiple_files: total_files > 1 };
        assert(r@.files =~= tree_of(texts(available@), texts(selected@)).files);
        r
    }

    pub fn duplicate(&self) -> (r: ModFileTree)
        ensures
            r@ == self@,
    {
        let mut files: Vec<ModFile> = Vec::new();
        let mut i: usize = 0;
        while i < self.files.len()
            invariant
                i <= self.files@.len(),
                files@.len() == i,
                forall|j: int| 0 <= j < i ==> (#[trigger] files@[j])@ == self.files@[j]@,
            decreases self.files@.len() - i,
        {
            files.push(self.files[i].duplicate());
            i = i + 1;
        }
        assert(file_views(files@) =~= file_views(self.files@));
        ModFileTree {
            files,
            total_files: self.total_files,
            has_multiple_files: self.has_multiple_files,
        }
    }
}

} // verus!
