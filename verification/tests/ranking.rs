use indexer::ranking::{page_bounds, page_of_ranking, rank, requested_kinds, FileKind};
use indexer::response::{AnswerFile, ExamFile, FileResponsePart, FileTypes, OtherFile};
use indexer::searcher::{Searcher, Source};

fn names(list: &[&str]) -> Option<Vec<String>> {
    Some(list.iter().map(|n| n.to_string()).collect())
}

#[test]
fn kinds_in_the_order_of_their_names() {
    assert_eq!(
        requested_kinds(&names(&["other", "exam", "answer"])),
        vec![FileKind::Answer, FileKind::Exam, FileKind::Other]
    );
}

#[test]
fn kinds_once_each_and_unknown_names_ignored() {
    assert_eq!(
        requested_kinds(&names(&["exam", "movie", "exam", "Exam", "other", "exam"])),
        vec![FileKind::Exam, FileKind::Other]
    );
}

#[test]
fn no_kinds_without_names() {
    assert_eq!(requested_kinds(&None), Vec::new());
    assert_eq!(requested_kinds(&names(&[])), Vec::new());
    assert_eq!(requested_kinds(&names(&["", "answers"])), Vec::new());
}

#[test]
fn rank_by_falling_score() {
    assert_eq!(rank(&vec![10, 30, 20]), vec![1, 2, 0]);
    assert_eq!(rank(&vec![1, 2, 3, 4]), vec![3, 2, 1, 0]);
    assert_eq!(rank(&vec![4, 3, 2, 1]), vec![0, 1, 2, 3]);
}

#[test]
fn rank_keeps_equal_scores_in_their_order() {
    assert_eq!(rank(&vec![5, 7, 5, 7, 5]), vec![1, 3, 0, 2, 4]);
    assert_eq!(rank(&vec![0, 0, 0]), vec![0, 1, 2]);
}

#[test]
fn rank_of_nothing_and_of_one() {
    assert_eq!(rank(&Vec::new()), Vec::<usize>::new());
    assert_eq!(rank(&vec![u32::MAX]), vec![0]);
}

#[test]
fn rank_agrees_with_a_stable_sort() {
    let scores: Vec<u32> = (0..200u32).map(|i| (i * 7919) % 13).collect();
    let mut expected: Vec<usize> = (0..scores.len()).collect();
    expected.sort_by(|a, b| scores[*b].cmp(&scores[*a]));
    assert_eq!(rank(&scores), expected);
}

#[test]
fn page_bounds_of_full_and_last_page() {
    assert_eq!(page_bounds(10, 3, 0), (0, 3));
    assert_eq!(page_bounds(10, 3, 2), (6, 9));
    assert_eq!(page_bounds(10, 3, 3), (9, 10));
    assert_eq!(page_bounds(9, 3, 2), (6, 9));
}

#[test]
fn page_bounds_behind_the_last_file() {
    assert_eq!(page_bounds(10, 3, 4), (10, 10));
    assert_eq!(page_bounds(9, 3, 3), (9, 9));
    assert_eq!(page_bounds(0, 5, 0), (0, 0));
    assert_eq!(page_bounds(10, 3, usize::MAX), (10, 10));
    assert_eq!(page_bounds(usize::MAX, usize::MAX, 1), (usize::MAX, usize::MAX));
    assert_eq!(page_bounds(usize::MAX, usize::MAX, 0), (0, usize::MAX));
    assert_eq!(page_bounds(7, usize::MAX, 0), (0, 7));
}

#[test]
fn page_agrees_with_chunks() {
    let scores: Vec<u32> = vec![3, 9, 1, 9, 4, 7, 0];
    let order = rank(&scores);
    for size in 1..9usize {
        for index in 0..9usize {
            let expected = order.chunks(size).nth(index).unwrap_or(&[]).to_vec();
            assert_eq!(page_of_ranking(&scores, size, index), expected);
        }
    }
}

#[test]
fn page_of_a_ranking() {
    let scores: Vec<u32> = vec![3, 9, 1, 9, 4];
    assert_eq!(page_of_ranking(&scores, 2, 0), vec![1, 3]);
    assert_eq!(page_of_ranking(&scores, 2, 1), vec![4, 0]);
    assert_eq!(page_of_ranking(&scores, 2, 2), vec![2]);
    assert_eq!(page_of_ranking(&scores, 2, 3), Vec::<usize>::new());
}

#[test]
fn places_of_results_by_number() {
    let mut searcher = Searcher::new();
    searcher.load_documents(&vec![
        Source { path: "a".to_string(), text: Ok("x".to_string()) },
        Source { path: "b".to_string(), text: Ok("y".to_string()) },
        Source { path: "c".to_string(), text: Ok("z".to_string()) },
    ]);
    searcher.documents[0].id = 12;
    searcher.documents[1].id = 5;
    searcher.documents[2].id = 12;
    let search = searcher.search_documents("x".to_string());
    let places = search.places();
    assert_eq!(places.len(), 2);
    assert_eq!(places.get(&12), Some(&2usize));
    assert_eq!(places.get(&5), Some(&1usize));
    assert_eq!(places.get(&-1), None);
}

fn exam(path: Option<&str>) -> ExamFile {
    ExamFile {
        exam_id: Some(1),
        subject_id: Some(2),
        exam_type: Some("written".to_string()),
        difficulty: None,
        task_label: None,
        work_time_in_minutes: Some(90),
        file_id: Some(3),
        year: Some(2020),
        file_path: path.map(|p| p.to_string()),
        embedding_id: Some(4),
    }
}

#[test]
fn file_path_of_each_kind() {
    let part = FileResponsePart { file_type: "exam".to_string(), file: FileTypes::Exam(exam(Some("e.md"))), score: 1 };
    assert_eq!(part.get_file_path(), Some(&"e.md".to_string()));

    let answer = AnswerFile {
        answer_id: None,
        subject_id: None,
        file_id: None,
        year: None,
        file_path: Some("a.md".to_string()),
        embedding_id: None,
    };
    let part = FileResponsePart { file_type: "answer".to_string(), file: FileTypes::Answer(answer), score: 0 };
    assert_eq!(part.get_file_path(), Some(&"a.md".to_string()));

    let other = OtherFile {
        other_id: None,
        subject_id: None,
        file_id: None,
        year: None,
        file_path: Some("o.md".to_string()),
        embedding_id: None,
    };
    let part = FileResponsePart { file_type: "other".to_string(), file: FileTypes::Other(other), score: 0 };
    assert_eq!(part.get_file_path(), Some(&"o.md".to_string()));
}

#[test]
fn file_without_a_path() {
    let part = FileResponsePart { file_type: "exam".to_string(), file: FileTypes::Exam(exam(None)), score: 1 };
    assert_eq!(part.get_file_path(), None);
}
