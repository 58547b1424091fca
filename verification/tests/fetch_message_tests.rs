use task_pool::foundations::task_pool::fetched_message;

#[test]
fn fetched_message_prefixes_the_url() {
    assert_eq!(fetched_message("https://1.com"), "fetched: https://1.com");
    assert_eq!(fetched_message(""), "fetched: ");
}
