use cycle_tracker::calendar::Date;
use cycle_tracker::errors::{ApiError, StoreFailure};
use cycle_tracker::models::{DeleteSymptomRequest, SymptomLog, SymptomsByDate};
use cycle_tracker::symptoms::{
    check_delete_request, delete_outcome, get_symptoms_grouped, SymptomKey,
};

fn symptom(year: i32, month: u32, day: u32, name: &str) -> SymptomLog {
    SymptomLog {
        logged_at: Date::from_ymd(year, month, day).unwrap(),
        symptom_type: name.to_string(),
        intensity: None,
    }
}

fn request(user_id: &str, logged_at: &str) -> DeleteSymptomRequest {
    DeleteSymptomRequest {
        user_id: user_id.to_string(),
        logged_at: logged_at.to_string(),
        symptom_type: "cramps".to_string(),
    }
}

#[test]
fn delete_request_with_uuid_and_date_is_read() {
    let outcome = request("67e55044-10b1-426f-9247-bb680e5fe0c8", "2024-02-29").parse();
    assert_eq!(
        outcome,
        Ok(SymptomKey {
            user_id: 0x67e5504410b1426f9247bb680e5fe0c8u128,
            logged_at: Date::from_ymd(2024, 2, 29).unwrap(),
            symptom_type: "cramps".to_string(),
        })
    );
}

#[test]
fn delete_request_with_bad_user_id_is_refused() {
    assert_eq!(request("nobody", "2024-02-29").parse(), Err(ApiError::InvalidUserId));
}

#[test]
fn delete_request_with_bad_date_is_refused() {
    assert_eq!(
        request("67e55044-10b1-426f-9247-bb680e5fe0c8", "29.02.2024").parse(),
        Err(ApiError::InvalidDate)
    );
    assert_eq!(
        request("67e55044-10b1-426f-9247-bb680e5fe0c8", "2023-02-29").parse(),
        Err(ApiError::InvalidDate)
    );
}

#[test]
fn delete_request_reports_the_user_id_first() {
    assert_eq!(request("nobody", "never").parse(), Err(ApiError::InvalidUserId));
}

#[test]
fn check_delete_request_looks_at_the_user_id_first() {
    let day = Date::from_ymd(2024, 1, 1).unwrap();
    assert_eq!(check_delete_request(None, None, "x".to_string()), Err(ApiError::InvalidUserId));
    assert_eq!(
        check_delete_request(None, Some(day), "x".to_string()),
        Err(ApiError::InvalidUserId)
    );
    assert_eq!(check_delete_request(Some(5), None, "x".to_string()), Err(ApiError::InvalidDate));
    assert_eq!(
        check_delete_request(Some(5), Some(day), "x".to_string()),
        Ok(SymptomKey { user_id: 5, logged_at: day, symptom_type: "x".to_string() })
    );
}

#[test]
fn delete_outcome_tells_removed_from_missing() {
    assert_eq!(delete_outcome(Ok(1)), Ok(()));
    assert_eq!(delete_outcome(Ok(3)), Ok(()));
    assert_eq!(delete_outcome(Ok(0)), Err(ApiError::NotFound));
    assert_eq!(delete_outcome(Err(StoreFailure)), Err(ApiError::StoreUnavailable));
}

#[test]
fn symptoms_are_grouped_by_day_in_ascending_order() {
    let groups = get_symptoms_grouped(vec![
        symptom(2024, 3, 2, "cramps"),
        symptom(2024, 3, 2, "headache"),
        symptom(2024, 3, 1, "bleeding"),
        symptom(2024, 2, 29, "nausea"),
        symptom(2024, 3, 1, "fatigue"),
        symptom(2024, 3, 2, "bloating"),
    ]);
    assert_eq!(
        groups,
        vec![
            SymptomsByDate {
                logged_at: Date::from_ymd(2024, 2, 29).unwrap(),
                symptoms: vec!["nausea".to_string()],
            },
            SymptomsByDate {
                logged_at: Date::from_ymd(2024, 3, 1).unwrap(),
                symptoms: vec!["bleeding".to_string(), "fatigue".to_string()],
            },
            SymptomsByDate {
                logged_at: Date::from_ymd(2024, 3, 2).unwrap(),
                symptoms: vec![
                    "cramps".to_string(),
                    "headache".to_string(),
                    "bloating".to_string(),
                ],
            },
        ]
    );
}

#[test]
fn no_symptoms_give_no_group() {
    assert_eq!(get_symptoms_grouped(Vec::new()), Vec::new());
}

#[test]
fn symptoms_of_days_next_to_each_other_stay_apart() {
    let groups = get_symptoms_grouped(vec![symptom(2024, 1, 2, "b"), symptom(2024, 1, 1, "a")]);
    assert_eq!(groups.len(), 2);
    assert_eq!(groups[0].symptoms, vec!["a".to_string()]);
    assert_eq!(groups[1].symptoms, vec!["b".to_string()]);
}

#[test]
fn failures_tell_what_went_wrong() {
    assert_eq!(ApiError::InvalidUserId.message(), "Invalid user_id UUID");
    assert_eq!(ApiError::InvalidDate.message(), "Invalid date format (expected YYYY-MM-DD)");
    assert_eq!(ApiError::NotFound.message(), "No symptom found");
    assert_eq!(ApiError::StoreUnavailable.message(), "DB error");
    assert_eq!(ApiError::WriteRejected.message(), "Record rejected");
}
