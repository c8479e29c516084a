use feed_relay::submit::{SubmissionResult, STATUS_CREATED};

#[test]
fn created_status_is_201() {
    assert_eq!(STATUS_CREATED, 201);
}

#[test]
fn classify_created() {
    assert_eq!(SubmissionResult::classify(Some(201)), SubmissionResult::Created);
    assert!(SubmissionResult::classify(Some(201)).is_created());
}

#[test]
fn classify_other_success_statuses_as_rejected() {
    assert_eq!(SubmissionResult::classify(Some(200)), SubmissionResult::Rejected(200));
    assert_eq!(SubmissionResult::classify(Some(202)), SubmissionResult::Rejected(202));
    assert_eq!(SubmissionResult::classify(Some(204)), SubmissionResult::Rejected(204));
}

#[test]
fn classify_redirects_as_rejected() {
    for status in [300u16, 301, 302, 303, 307, 308, 399] {
        let result = SubmissionResult::classify(Some(status));
        assert_eq!(result, SubmissionResult::Rejected(status));
        assert!(!result.is_created());
    }
}

#[test]
fn classify_errors_as_rejected() {
    for status in [0u16, 100, 400, 401, 403, 404, 422, 500, 503, 65535] {
        assert_eq!(SubmissionResult::classify(Some(status)), SubmissionResult::Rejected(status));
    }
}

#[test]
fn classify_no_answer_as_transport_failure() {
    assert_eq!(SubmissionResult::classify(None), SubmissionResult::TransportFailure);
    assert!(!SubmissionResult::classify(None).is_created());
}
