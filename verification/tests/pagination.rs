use diecast::pagination::{paginate, pages, Page};

fn route(n: usize) -> String {
    format!("page/{}.html", n)
}

fn range_of(page: &Page) -> (usize, usize) {
    (page.range.start, page.range.end)
}

#[test]
fn pages_split_posts_evenly() {
    let ps = pages(10, 3, &route);

    assert_eq!(ps.len(), 4);
    assert_eq!(range_of(&ps[0]), (0, 3));
    assert_eq!(range_of(&ps[1]), (3, 6));
    assert_eq!(range_of(&ps[2]), (6, 9));
    assert_eq!(range_of(&ps[3]), (9, 10));

    for (i, page) in ps.iter().enumerate() {
        assert_eq!(page.curr, (i, route(i)));
        assert_eq!(page.page_count, 4);
        assert_eq!(page.post_count, 10);
        assert_eq!(page.posts_per_page, 3);
        assert_eq!(page.first, (0, route(0)));
        assert_eq!(page.last, (3, route(3)));
    }
}

#[test]
fn pages_link_their_neighbours() {
    let ps = pages(10, 3, &route);

    assert_eq!(ps[0].prev, None);
    assert_eq!(ps[0].next, Some((1, route(1))));
    assert_eq!(ps[2].prev, Some((1, route(1))));
    assert_eq!(ps[2].next, Some((3, route(3))));
    assert_eq!(ps[3].next, None);
}

#[test]
fn exact_multiple_fills_every_page() {
    let ps = pages(6, 3, &route);

    assert_eq!(ps.len(), 2);
    assert_eq!(range_of(&ps[1]), (3, 6));
}

#[test]
fn single_page_links_itself_first() {
    let ps = pages(2, 5, &route);

    assert_eq!(ps.len(), 1);
    assert_eq!(range_of(&ps[0]), (0, 2));
    assert_eq!(ps[0].first, (0, route(0)));
    assert_eq!(ps[0].last, (0, route(0)));
    assert_eq!(ps[0].prev, None);
    assert_eq!(ps[0].next, None);
}

#[test]
fn ranges_cover_all_posts_in_order() {
    for post_count in 1..30usize {
        for factor in 1..8usize {
            let ps = pages(post_count, factor, &route);
            assert_eq!(ps.len(), (post_count + factor - 1) / factor);
            assert_eq!(ps[0].range.start, 0);
            assert_eq!(ps[ps.len() - 1].range.end, post_count);
            for w in ps.windows(2) {
                assert_eq!(w[0].range.end, w[1].range.start);
                assert_eq!(w[0].range.end - w[0].range.start, factor);
            }
        }
    }
}

#[test]
fn paginate_keeps_its_settings() {
    let p = paginate("posts", 2, route);

    assert_eq!(p.target(), "posts");
    assert!(p.try_pages(0).is_none());
    let ps = p.pages(5);
    assert_eq!(ps.len(), 3);
    assert_eq!(range_of(&ps[2]), (4, 5));

    let none = paginate("posts", 0, route);
    assert!(none.try_pages(4).is_none());

    let wide = paginate("posts", usize::MAX / 2 + 1, route);
    assert!(wide.try_pages(usize::MAX).is_none());
    assert_eq!(wide.try_pages(usize::MAX / 2 + 1).map(|ps| ps.len()), Some(1));
}

#[test]
fn largest_counts_fit_on_one_page() {
    let ps = pages(usize::MAX, usize::MAX, &route);

    assert_eq!(ps.len(), 1);
    assert_eq!(range_of(&ps[0]), (0, usize::MAX));
}
