//! The journal capability interface and the report values it produces.
//!
//! A journal receives one `observe` call per accepted file, in walk
//! order, and is finalized once by `summary`, which returns the report as
//! plain data; the surrounding program does the printing. The abstract
//! history of `observe` calls is the sequence of `Observation`s, and each
//! journal's report is a function of that history alone.

use vstd::prelude::*;

verus! {

/// One `observe` call as the specifications see it: the file's path and
/// its contents (`None` for an unreadable file).
pub ghost struct Observation {
    pub path: Seq<char>,
    pub content: Option<Seq<char>>,
}

/// A `(path, line count)` pair reported by the line-counting journals.
pub struct FileRecord {
    pub path: String,
    pub lines: u64,
}

pub ghost struct FileRecordV {
    pub path: Seq<char>,
    pub lines: int,
}

impl View for FileRecord {
    type V = FileRecordV;

    open spec fn view(&self) -> FileRecordV {
        FileRecordV { path: self.path@, lines: self.lines as int }
    }
}

/// The line-counting report: per-file records sorted ascending by line
/// count (ties keep insertion order), and the total.
pub struct LineReport {
    pub records: Vec<FileRecord>,
    pub total: u64,
}

pub ghost struct LineReportV {
    pub records: Seq<FileRecordV>,
    pub total: int,
}

impl View for LineReport {
    type V = LineReportV;

    open spec fn view(&self) -> LineReportV {
        LineReportV { records: recs_view(self.records@), total: self.total as int }
    }
}

/// One TODO comment: its tag, the matched text from the marker to the end
/// of the trimmed line, and the source location as path and 1-based line.
pub struct TodoItem {
    pub tag: String,
    pub message: String,
    pub path: String,
    pub line: usize,
}

pub ghost struct TodoItemV {
    pub tag: Seq<char>,
    pub message: Seq<char>,
    pub path: Seq<char>,
    pub line: int,
}

impl View for TodoItem {
    type V = TodoItemV;

    open spec fn view(&self) -> TodoItemV {
        TodoItemV {
            tag: self.tag@,
            message: self.message@,
            path: self.path@,
            line: self.line as int,
        }
    }
}

/// The items of one tag, in the order they were recorded.
pub struct TodoGroup {
    pub tag: String,
    pub items: Vec<TodoItem>,
}

pub ghost struct TodoGroupV {
    pub tag: Seq<char>,
    pub items: Seq<TodoItemV>,
}

impl View for TodoGroup {
    type V = TodoGroupV;

    open spec fn view(&self) -> TodoGroupV {
        TodoGroupV { tag: self.tag@, items: items_view(self.items@) }
    }
}

/// The TODO report: groups in first-seen tag order, and the item total.
pub struct TodoReport {
    pub groups: Vec<TodoGroup>,
    pub count: usize,
}

pub ghost struct TodoReportV {
    pub groups: Seq<TodoGroupV>,
    pub count: int,
}

impl View for TodoReport {
    type V = TodoReportV;

    open spec fn view(&self) -> TodoReportV {
        TodoReportV { groups: groups_view(self.groups@), count: self.count as int }
    }
}

/// What a run hands back to its caller for printing.
pub enum Report {
    Lines(LineReport),
    Todos(TodoReport),
}

pub ghost enum ReportV {
    Lines(LineReportV),
    Todos(TodoReportV),
}

impl View for Report {
    type V = ReportV;

    open spec fn view(&self) -> ReportV {
        match self {
            Report::Lines(l) => ReportV::Lines(l@),
            Report::Todos(t) => ReportV::Todos(t@),
        }
    }
}

pub open spec fn recs_view(s: Seq<FileRecord>) -> Seq<FileRecordV> {
    s.map_values(|r: FileRecord| r@)
}

pub open spec fn items_view(s: Seq<TodoItem>) -> Seq<TodoItemV> {
    s.map_values(|t: TodoItem| t@)
}

pub open spec fn groups_view(s: Seq<TodoGroup>) -> Seq<TodoGroupV> {
    s.map_values(|g: TodoGroup| g@)
}

pub open spec fn strings_view(s: Seq<String>) -> Seq<Seq<char>> {
    s.map_values(|x: String| x@)
}

/// The observation a call of `observe` appends to the history.
pub open spec fn obs_of(path: Seq<char>, content: Option<&String>) -> Observation {
    Observation {
        path,
        content: match content {
            Some(c) => Some(c@),
            None => None,
        },
    }
}

/// The journal capability: `observe` records one accepted file, `summary`
/// produces the final report. `inv` is the journal's internal invariant
/// and `obs` its abstract history; `report_view` is the report the
/// journal owes, determined by that history.
pub trait Journal: Sized {
    spec fn inv(&self) -> bool;

    spec fn obs(&self) -> Seq<Observation>;

    spec fn report_view(&self) -> ReportV;

    fn observe(&mut self, fpath: String, content: Option<&String>)
        requires
            old(self).inv(),
            content is Some ==> content->0@.len() < usize::MAX,
        ensures
            final(self).inv(),
            final(self).obs() == old(self).obs().push(obs_of(fpath@, content)),
    ;

    fn summary(&self) -> (r: Report)
        requires
            self.inv(),
        ensures
            r@ == self.report_view(),
    ;
}

} // verus!
