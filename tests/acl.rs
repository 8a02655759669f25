use kite::acl::{check_anonymous_list, get_auth_bearer_value, Admission, Auth, HttpMethod};
use kite::services::{JwtToken, NormalResponse};

#[test]
fn anonymous_paths() {
    assert!(check_anonymous_list(HttpMethod::Get, "/"));
    assert!(check_anonymous_list(HttpMethod::Post, "/session"));
    assert!(check_anonymous_list(HttpMethod::Post, "/user"));
    assert!(!check_anonymous_list(HttpMethod::Get, "/user"));
    assert!(check_anonymous_list(HttpMethod::Get, "/event"));
    assert!(!check_anonymous_list(HttpMethod::Post, "/event"));
    assert!(check_anonymous_list(HttpMethod::Post, "/user/12/authentication"));
    assert!(!check_anonymous_list(HttpMethod::Get, "/user/12"));
    assert!(!check_anonymous_list(HttpMethod::Get, "/motto"));
}

#[test]
fn bearer_value() {
    assert_eq!(get_auth_bearer_value("Bearer abc.def"), Some("abc.def"));
    assert_eq!(get_auth_bearer_value("Bearer "), Some(""));
    assert_eq!(get_auth_bearer_value("Basic abc"), None);
    assert_eq!(get_auth_bearer_value("Bearer"), None);
}

#[test]
fn screening_requests() {
    let m = Auth.new_transform(5u8);
    assert_eq!(m.service, 5u8);
    assert_eq!(m.screen(HttpMethod::Get, "/", None), Admission::Anonymous);
    assert_eq!(m.screen(HttpMethod::Get, "/motto", None), Admission::Denied);
    assert_eq!(m.screen(HttpMethod::Get, "/motto", Some("Basic x")), Admission::Denied);
    assert_eq!(m.screen(HttpMethod::Get, "/motto", Some("Bearer tok")), Admission::Token("tok"));
}

#[test]
fn normal_response_and_token() {
    let r = NormalResponse::new(3u32);
    assert_eq!(r.code, 0);
    assert_eq!(r.data, 3);
    let t = JwtToken { uid: 1, is_admin: false };
    assert_eq!(t, JwtToken { uid: 1, is_admin: false });
}
