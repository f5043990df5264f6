use hnapi::listing::{result_to_option, PaginationOptions, StoryList};

#[test]
fn list_urls() {
    assert_eq!(StoryList::News.url(), "https://news.ycombinator.com/news");
    assert_eq!(StoryList::Newest.url(), "https://news.ycombinator.com/newest");
    assert_eq!(StoryList::Ask.url(), "https://news.ycombinator.com/ask");
    assert_eq!(StoryList::Show.url(), "https://news.ycombinator.com/show");
    assert_eq!(StoryList::Jobs.url(), "https://news.ycombinator.com/jobs");
    assert_eq!(StoryList::Best.url(), "https://news.ycombinator.com/best");
}

#[test]
fn pagination_default_covers_first_page() {
    let p = PaginationOptions::default();
    assert_eq!(p.from, 0);
    assert_eq!(p.to, 10);
}

#[test]
fn pagination_from_and_to_move_the_window() {
    let p = PaginationOptions::default().from(3).to(17);
    assert_eq!(p.from, 3);
    assert_eq!(p.to, 17);
}

#[test]
fn pagination_page_windows() {
    let p = PaginationOptions::page(1);
    assert_eq!(p.from, 0);
    assert_eq!(p.to, 10);
    let p = PaginationOptions::page(4);
    assert_eq!(p.from, 30);
    assert_eq!(p.to, 40);
}

#[test]
fn result_to_option_keeps_ok_and_drops_err() {
    let ok: Result<u32, String> = Ok(3);
    let err: Result<u32, String> = Err("nope".to_string());
    assert_eq!(result_to_option(ok), Some(3));
    assert_eq!(result_to_option(err), None);
}
