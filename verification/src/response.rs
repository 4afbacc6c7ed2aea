//! The files of an answer: what the metadata store knows of a file, and the
//! score of its document.

use vstd::prelude::*;

verus! {

/// A file that holds an exam.
#[derive(Debug, Clone, PartialEq, Eq)]
pub struct ExamFile {
    pub exam_id: Option<i64>,
    pub subject_id: Option<i64>,
    pub exam_type: Option<String>,
    pub difficulty: Option<String>,
    pub task_label: Option<String>,
    pub work_time_in_minutes: Option<i64>,
    pub file_id: Option<i64>,
    pub year: Option<i64>,
    pub file_path: Option<String>,
    pub embedding_id: Option<i64>,
}

/// A file that holds the answers to an exam.
#[derive(Debug, Clone, PartialEq, Eq)]
pub struct AnswerFile {
    pub answer_id: Option<i64>,
    pub subject_id: Option<i64>,
    pub file_id: Option<i64>,
    pub year: Option<i64>,
    pub file_path: Option<String>,
    pub embedding_id: Option<i64>,
}

/// A file of any other kind.
#[derive(Debug, Clone, PartialEq, Eq)]
pub struct OtherFile {
    pub other_id: Option<i64>,
    pub subject_id: Option<i64>,
    pub file_id: Option<i64>,
    pub year: Option<i64>,
    pub file_path: Option<String>,
    pub embedding_id: Option<i64>,
}

/// A file of one of the three kinds.
#[derive(Debug, Clone, PartialEq, Eq)]
pub enum FileTypes {
    Exam(ExamFile),
    Answer(AnswerFile),
    Other(OtherFile),
}

/// One file of an answer.
#[derive(Debug, Clone, PartialEq, Eq)]
pub struct FileResponsePart {
    /// The name of the kind of the file.
    pub file_type: String,
    pub file: FileTypes,
    /// The similarity of the file's document to the query, as an integer
    /// that orders as the similarity does.
    pub score: u32,
}

impl FileTypes {
    /// The path of the file, where the metadata store has one.
    pub open spec fn path(self) -> Option<String> {
        match self {
            FileTypes::Exam(exam) => exam.file_path,
            FileTypes::Answer(answer) => answer.file_path,
            FileTypes::Other(other) => other.file_path,
        }
    }
}

impl FileResponsePart {
    /// The path of the file, whatever its kind.
    pub fn get_file_path(&self) -> (path: Option<&String>)
        ensures
            match path {
                Some(p) => self.file.path() == Some(*p),
                None => self.file.path() is None,
            },
    {
        match &self.file {
            FileTypes::Exam(exam) => exam.file_path.as_ref(),
            FileTypes::Answer(answer) => answer.file_path.as_ref(),
            FileTypes::Other(other) => other.file_path.as_ref(),
        }
    }
}

} // verus!
