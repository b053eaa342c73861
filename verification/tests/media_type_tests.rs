use linkset::error::MediaTypeError;
use linkset::model::MediaType;

#[test]
fn valid_simple() {
    assert!(MediaType::new("text/html".to_string()).is_ok());
    assert!(MediaType::new("application/linkset+json".to_string()).is_ok());
}

#[test]
fn valid_with_params() {
    assert!(MediaType::new("text/html; charset=utf-8".to_string()).is_ok());
    assert!(MediaType::new("application/json;q=0.9".to_string()).is_ok());
}

#[test]
fn invalid() {
    assert!(MediaType::new("text".to_string()).is_err());
    assert!(MediaType::new("/html".to_string()).is_err());
    assert!(MediaType::new("text/".to_string()).is_err());
    assert!(MediaType::new("te xt/html".to_string()).is_err());
}

#[test]
fn quoted_parameter_value_is_accepted() {
    assert!(MediaType::new("text/plain; charset=\"utf-8\"".to_string()).is_ok());
}

#[test]
fn parameters_are_taken_as_they_are() {
    assert!(MediaType::new("text/html;foo".to_string()).is_ok());
    assert!(MediaType::new("text/plain; charset=\"utf-8".to_string()).is_ok());
    assert!(MediaType::new("text/plain ;".to_string()).is_ok());
    assert!(MediaType::new("text/plain x".to_string()).is_err());
    assert!(MediaType::new("text/plain x;y".to_string()).is_err());
}

#[test]
fn error_carries_the_text() {
    assert_eq!(MediaType::new("text".to_string()).unwrap_err(), MediaTypeError("text".to_string()));
}

#[test]
fn as_str_gives_the_text_back() {
    let m = MediaType::new("text/html; charset=utf-8".to_string()).unwrap();
    assert_eq!(m.as_str(), "text/html; charset=utf-8");
}

#[test]
fn media_type_error_message() {
    assert_eq!(MediaTypeError("text".to_string()).message(), "not a plausible media type: \"text\"");
}
