use appointment_reminders::message::render_body;

#[test]
fn fills_all_placeholders() {
    let body = render_body(
        "Hello %FIRST_NAME% %LAST_NAME%, see you at %APPOINTMENT_DATETIME%.",
        "2024-01-12 09:30:00",
        "Ada",
        "Lovelace",
    );
    assert_eq!(body, "Hello Ada Lovelace, see you at 2024-01-12 09:30:00.");
}

#[test]
fn fills_repeated_placeholders() {
    let body = render_body("%FIRST_NAME%/%FIRST_NAME%", "x", "Bo", "Li");
    assert_eq!(body, "Bo/Bo");
}

#[test]
fn template_without_placeholders_unchanged() {
    assert_eq!(render_body("plain text", "a", "b", "c"), "plain text");
}
