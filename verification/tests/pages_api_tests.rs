use pdf_maldives_be::api::{
    assert_send, success_message, upload_file_name, SemanticDataApiError, SemanticDataRequestBody,
};
use pdf_maldives_be::pages::{assemble_pages, worker_count, worker_page_indices};

#[test]
fn worker_count_is_parallelism_capped_by_pages() {
    assert_eq!(worker_count(Some(8), 3), 3);
    assert_eq!(worker_count(Some(2), 10), 2);
    assert_eq!(worker_count(None, 10), 4);
    assert_eq!(worker_count(None, 0), 0);
}

#[test]
fn workers_take_every_nth_page() {
    assert_eq!(worker_page_indices(0, 3, 8), vec![0, 3, 6]);
    assert_eq!(worker_page_indices(2, 3, 8), vec![2, 5]);
    assert_eq!(worker_page_indices(4, 3, 4), Vec::<usize>::new());
    assert_eq!(worker_page_indices(0, 1, 3), vec![0, 1, 2]);
}

#[test]
fn worker_lists_partition_the_pages() {
    let pages = 11;
    let n = 4;
    let mut seen = vec![0; pages];
    for w in 0..n {
        for p in worker_page_indices(w, n, pages) {
            assert_eq!(p % n, w);
            seen[p] += 1;
        }
    }
    assert!(seen.iter().all(|&c| c == 1));
}

#[test]
fn pages_are_assembled_in_order() {
    let entries = vec![(2, vec!["c"]), (0, vec!["a"]), (5, vec!["x"]), (0, vec!["a2"])];
    let pages = assemble_pages(3, entries);
    assert_eq!(pages, vec![vec!["a2"], vec![], vec!["c"]]);
    let none: Vec<Vec<u8>> = assemble_pages(2, vec![]);
    assert_eq!(none, vec![Vec::<u8>::new(), Vec::new()]);
}

#[test]
fn error_statuses_and_messages() {
    let bad = SemanticDataApiError::BadRequest("No file uploaded".to_string());
    assert_eq!(bad.status_code(), 400);
    assert_eq!(bad.message(), "No file uploaded");
    let inference = SemanticDataApiError::SemanticInferenceError("bad pdf".to_string());
    assert_eq!(inference.status_code(), 422);
    assert_eq!(inference.message(), "bad pdf");
    let internal = SemanticDataApiError::InternalServerError;
    assert_eq!(internal.status_code(), 500);
    assert_eq!(internal.message(), "Something went wrong, Please try again later");
}

#[test]
fn success_and_upload_names() {
    assert_eq!(success_message(), "Maldives generated successfully");
    assert_eq!(upload_file_name(Some("report.pdf")), "report.pdf");
    assert_eq!(upload_file_name(None), "document.pdf");
    assert_send::<SemanticDataRequestBody>();
    assert_eq!(SemanticDataRequestBody {}, SemanticDataRequestBody {});
}
