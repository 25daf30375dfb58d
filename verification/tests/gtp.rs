use qidao_core::gtp::{read_reply, take_line};
use qidao_core::GtpResponse;

#[test]
fn reply_is_gathered_up_to_the_first_blank_line_after_it_began() {
    let mut response = String::new();
    assert!(!take_line(&mut response, "\n"));
    assert_eq!(response, "");
    assert!(!take_line(&mut response, "   \n"));
    assert_eq!(response, "");
    assert!(!take_line(&mut response, "= A B\n"));
    assert_eq!(response, "= A B\n");
    assert!(!take_line(&mut response, "C D\n"));
    assert_eq!(response, "= A B\nC D\n");
    assert!(take_line(&mut response, "\n"));
    assert_eq!(response, "= A B\nC D\n");
}

#[test]
fn reply_tells_success_from_failure() {
    assert_eq!(
        read_reply("= KataGo 1.15\n"),
        GtpResponse { success: true, text: "KataGo 1.15".to_string() }
    );
    assert_eq!(
        read_reply("? unknown command\n"),
        GtpResponse { success: false, text: "unknown command".to_string() }
    );
    assert_eq!(read_reply("=\n"), GtpResponse { success: true, text: "".to_string() });
    assert_eq!(
        read_reply("  stray text \n"),
        GtpResponse { success: true, text: "stray text".to_string() }
    );
    assert_eq!(read_reply(""), GtpResponse { success: true, text: "".to_string() });
    assert_eq!(
        read_reply("=1 a\nb\n"),
        GtpResponse { success: true, text: "1 a\nb".to_string() }
    );
}
