//! Pagination: splitting the items of a bind over numbered pages.
//!
//! Page `i` (counting from zero) holds the posts at positions
//! `i * factor .. min(post_count, (i + 1) * factor)`, and knows the paths of
//! the first, previous, next and last pages.
use std::ops::Range;
use vstd::prelude::*;

verus! {

/// The number of pages that `post_count` posts fill at `factor` posts a page.
pub open spec fn page_count_of(post_count: int, factor: int) -> int {
    if post_count % factor == 0 {
        post_count / factor
    } else {
        post_count / factor + 1
    }
}

/// The smaller of two numbers.
pub open spec fn min_of(a: int, b: int) -> int {
    if a <= b {
        a
    } else {
        b
    }
}

/// A page of posts, with links to the pages around it.
///
/// Each link is the page number and the path the page is written to.
pub struct Page {
    pub first: (usize, String),
    pub next: Option<(usize, String)>,
    pub curr: (usize, String),
    pub prev: Option<(usize, String)>,
    pub last: (usize, String),
    /// The positions of the posts on this page.
    pub range: Range<usize>,
    pub page_count: usize,
    pub post_count: usize,
    pub posts_per_page: usize,
}

/// Page `i` of `pages` as `post_count` posts at `factor` a page lay it out:
/// its number, range and counts, and links that agree with its neighbours.
pub open spec fn page_laid_out(pages: Seq<Page>, i: int, post_count: int, factor: int) -> bool {
    let p = pages[i];
    let last = pages.len() - 1;
    &&& p.curr.0 == i
    &&& p.range.start == i * factor
    &&& p.range.end == min_of(post_count, (i + 1) * factor)
    &&& p.page_count == pages.len()
    &&& p.post_count == post_count
    &&& p.posts_per_page == factor
    &&& p.prev == (if i == 0 {
        None::<(usize, String)>
    } else {
        Some(((i - 1) as usize, pages[i - 1].curr.1))
    })
    &&& p.next == (if i == last {
        None::<(usize, String)>
    } else {
        Some(((i + 1) as usize, pages[i + 1].curr.1))
    })
    &&& p.first == pages[0].first
    &&& p.last == pages[last].curr
}

/// The whole layout of `post_count` posts over pages of `factor` posts.
pub open spec fn laid_out(pages: Seq<Page>, post_count: int, factor: int) -> bool {
    &&& pages.len() == page_count_of(post_count, factor)
    &&& forall|i: int| 0 <= i < pages.len() ==> #[trigger] page_laid_out(pages, i, post_count, factor)
    &&& pages[0].first == pages[0].curr
}

/// Whether the posts of every page of `post_count` posts at `factor` a page
/// have positions that fit in a `usize`: the pages times `factor` fit.
pub open spec fn layout_fits(post_count: int, factor: int) -> bool {
    page_count_of(post_count, factor) * factor <= usize::MAX
}

/// Bounds on the page count: the last page starts before the end, and the
/// pages reach it.
pub proof fn lemma_page_count_bounds(post_count: int, factor: int)
    requires
        post_count > 0,
        factor > 0,
    ensures
        page_count_of(post_count, factor) >= 1,
        (page_count_of(post_count, factor) - 1) * factor < post_count,
        post_count <= page_count_of(post_count, factor) * factor,
        page_count_of(post_count, factor) * factor < post_count + factor,
{
    let q = post_count / factor;
    let r = post_count % factor;
    assert(post_count == q * factor + r && 0 <= r < factor) by (nonlinear_arith)
        requires
            factor > 0,
            q == post_count / factor,
            r == post_count % factor,
    ;
    assert(q >= 0) by (nonlinear_arith)
        requires
            factor > 0,
            post_count > 0,
            q == post_count / factor,
    ;
    if r == 0 {
        assert(q >= 1) by (nonlinear_arith)
            requires
                post_count == q * factor,
                post_count > 0,
                factor > 0,
        ;
        assert((q - 1) * factor == q * factor - factor) by (nonlinear_arith);
    } else {
        assert((q + 1) * factor == q * factor + factor) by (nonlinear_arith);
    }
}

/// Where `factor` does not divide `post_count`, the quotient is below
/// `post_count`, so one more page can be counted.
proof fn lemma_quotient_room(post_count: int, factor: int)
    requires
        post_count > 0,
        factor > 0,
        post_count % factor != 0,
    ensures
        post_count / factor < post_count,
{
    let q = post_count / factor;
    let r = post_count % factor;
    assert(post_count == q * factor + r && 0 <= r < factor && q >= 0) by (nonlinear_arith)
        requires
            factor > 0,
            post_count > 0,
            q == post_count / factor,
            r == post_count % factor,
    ;
    assert(q <= q * factor) by (nonlinear_arith)
        requires
            factor > 0,
            q >= 0,
    ;
}

/// Multiplying by a positive factor keeps the order.
proof fn lemma_mul_le(a: int, b: int, factor: int)
    requires
        a <= b,
        factor >= 0,
    ensures
        a * factor <= b * factor,
{
    assert(a * factor <= b * factor) by (nonlinear_arith)
        requires
            a <= b,
            factor >= 0,
    ;
}

/// Lays `post_count` posts out over pages of `factor` posts each, asking
/// `router` for the path of each page number. Each page number is routed
/// once, and every link to a page carries that one path; pages are numbered
/// from zero, so the first page link is page 0.
pub fn pages<R: Fn(usize) -> String>(post_count: usize, factor: usize, router: &R) -> (r: Vec<Page>)
    requires
        factor > 0,
        post_count > 0,
        layout_fits(post_count as int, factor as int),
        forall|n: usize| call_requires(*router, (n,)),
    ensures
        laid_out(r@, post_count as int, factor as int),
        forall|i: int|
            0 <= i < r@.len() ==> call_ensures(*router, (i as usize,), #[trigger] r@[i].curr.1),
{
    let div = post_count / factor;
    let rem = post_count % factor;
    proof {
        if rem != 0 {
            lemma_quotient_room(post_count as int, factor as int);
        }
    }
    let page_count: usize = if rem == 0 {
        div
    } else {
        div + 1
    };
    proof {
        lemma_page_count_bounds(post_count as int, factor as int);
    }
    assert(page_count == page_count_of(post_count as int, factor as int));
    let last_num: usize = page_count - 1;

    let mut targets: Vec<String> = Vec::new();
    let mut n: usize = 0;
    while n < page_count
        invariant
            n <= page_count,
            targets@.len() == n,
            forall|m: usize| call_requires(*router, (m,)),
            forall|j: int| 0 <= j < n ==> call_ensures(*router, (j as usize,), #[trigger] targets@[j]),
        decreases page_count - n,
    {
        let t = router(n);
        targets.push(t);
        n = n + 1;
    }

    let first: (usize, String) = (0, targets[0].clone());
    let last: (usize, String) = (last_num, targets[last_num].clone());

    let mut result: Vec<Page> = Vec::new();
    let mut current: usize = 0;
    while current < page_count
        invariant
            page_count == page_count_of(post_count as int, factor as int),
            page_count >= 1,
            last_num == page_count - 1,
            (page_count - 1) * factor < post_count,
            page_count * factor <= usize::MAX,
            factor > 0,
            current <= page_count,
            targets@.len() == page_count,
            result@.len() == current,
            first == (0usize, targets@[0]),
            last.0 == last_num,
            last.1 == targets@[last_num as int],
            forall|i: int|
                #![trigger result@[i]]
                0 <= i < current ==> {
                    let p = result@[i];
                    &&& p.curr == (i as usize, targets@[i])
                    &&& p.range.start == i * factor
                    &&& p.range.end == min_of(post_count as int, (i + 1) * factor)
                    &&& p.page_count == page_count
                    &&& p.post_count == post_count
                    &&& p.posts_per_page == factor
                    &&& p.prev == (if i == 0 {
                        None::<(usize, String)>
                    } else {
                        Some(((i - 1) as usize, targets@[i - 1]))
                    })
                    &&& p.next == (if i == last_num {
                        None::<(usize, String)>
                    } else {
                        Some(((i + 1) as usize, targets@[i + 1]))
                    })
                    &&& p.first == first
                    &&& p.last == last
                },
        decreases page_count - current,
    {
        proof {
            lemma_mul_le(current as int, (page_count - 1) as int, factor as int);
            lemma_mul_le(current + 1, page_count as int, factor as int);
        }
        let prev = if current == 0 {
            None
        } else {
            let num = current - 1;
            Some((num, targets[num].clone()))
        };
        let next = if current == last_num {
            None
        } else {
            let num = current + 1;
            Some((num, targets[num].clone()))
        };
        let start = current * factor;
        let upper = (current + 1) * factor;
        let end = if post_count <= upper {
            post_count
        } else {
            upper
        };
        let page = Page {
            first: (first.0, first.1.clone()),
            next,
            curr: (current, targets[current].clone()),
            prev,
            last: (last.0, last.1.clone()),
            range: Range { start, end },
            page_count,
            post_count,
            posts_per_page: factor,
        };
        result.push(page);
        current = current + 1;
    }
    assert forall|i: int| 0 <= i < result@.len() implies #[trigger] page_laid_out(
        result@,
        i,
        post_count as int,
        factor as int,
    ) by {
        assert(result@[i].curr == (i as usize, targets@[i]));
        if i > 0 {
            assert(result@[i - 1].curr == ((i - 1) as usize, targets@[i - 1]));
        }
        if i < last_num {
            assert(result@[i + 1].curr == ((i + 1) as usize, targets@[i + 1]));
        }
        assert(result@[last_num as int].curr == (last_num, targets@[last_num as int]));
        assert(result@[0].first == first);
    }
    assert(result@[0].curr == (0usize, targets@[0]));
    assert forall|i: int| 0 <= i < result@.len() implies call_ensures(
        *router,
        (i as usize,),
        #[trigger] result@[i].curr.1,
    ) by {
        assert(result@[i].curr == (i as usize, targets@[i]));
    }
    result
}

/// The pages of a bind whose posts are the items of the bind `target`.
#[verifier::reject_recursive_types(R)]
pub struct Paginate<R: Fn(usize) -> String> {
    target: String,
    factor: usize,
    router: R,
}

impl<R: Fn(usize) -> String> Paginate<R> {
    /// The router can be asked for any page number.
    #[verifier::type_invariant]
    closed spec fn router_total(&self) -> bool {
        forall|n: usize| call_requires(self.router, (n,))
    }

    /// The name of the bind whose items are paginated.
    pub closed spec fn target_view(&self) -> Seq<char> {
        self.target@
    }

    /// The number of posts a page.
    pub closed spec fn factor_view(&self) -> usize {
        self.factor
    }

    /// The router of page numbers to paths.
    pub closed spec fn router_view(&self) -> R {
        self.router
    }

    /// The name of the bind whose items are paginated.
    pub fn target(&self) -> (r: &str)
        ensures
            r@ == self.target_view(),
    {
        self.target.as_str()
    }

    /// The pages for `post_count` posts of the target bind.
    pub fn pages(&self, post_count: usize) -> (r: Vec<Page>)
        requires
            self.factor_view() > 0,
            post_count > 0,
            layout_fits(post_count as int, self.factor_view() as int),
        ensures
            laid_out(r@, post_count as int, self.factor_view() as int),
            forall|i: int|
                0 <= i < r@.len() ==> call_ensures(self.router_view(), (i as usize,), #[trigger] r@[i].curr.1),
    {
        proof {
            use_type_invariant(self);
        }
        pages(post_count, self.factor, &self.router)
    }

    /// The pages for `post_count` posts, where they can be laid out: there
    /// are posts, pages hold some, and the numbers fit.
    pub fn try_pages(&self, post_count: usize) -> (r: Option<Vec<Page>>)
        ensures
            r is Some <==> (self.factor_view() > 0 && post_count > 0 && layout_fits(
                post_count as int,
                self.factor_view() as int,
            )),
            r matches Some(ps) ==> {
                &&& laid_out(ps@, post_count as int, self.factor_view() as int)
                &&& forall|i: int|
                    0 <= i < ps@.len() ==> call_ensures(self.router_view(), (i as usize,), #[trigger] ps@[i].curr.1)
            },
    {
        if self.factor == 0 || post_count == 0 {
            return None;
        }
        proof {
            if post_count % self.factor != 0 {
                lemma_quotient_room(post_count as int, self.factor as int);
            }
        }
        let page_count: usize = if post_count % self.factor == 0 {
            post_count / self.factor
        } else {
            post_count / self.factor + 1
        };
        proof {
            lemma_page_count_bounds(post_count as int, self.factor as int);
        }
        assert(page_count == page_count_of(post_count as int, self.factor as int));
        match page_count.checked_mul(self.factor) {
            Some(_) => Some(self.pages(post_count)),
            None => None,
        }
    }
}

/// Paginates the items of the bind named `target` at `factor` items a page,
/// routing page numbers to paths with `router`.
pub fn paginate<R: Fn(usize) -> String>(target: &str, factor: usize, router: R) -> (r: Paginate<R>)
    requires
        forall|n: usize| call_requires(router, (n,)),
    ensures
        r.target_view() == target@,
        r.factor_view() == factor,
        r.router_view() == router,
{
    Paginate { target: String::from_str(target), factor, router }
}

/// The pages cover the posts in order, without gap or overlap: the first
/// starts at position zero, each ends where the next starts, the last ends
/// at the post count, and no page is empty or holds more than `factor`
/// posts.
pub proof fn lemma_pages_partition_posts(pages: Seq<Page>, post_count: int, factor: int)
    requires
        post_count > 0,
        factor > 0,
        laid_out(pages, post_count, factor),
    ensures
        pages[0].range.start == 0,
        pages[pages.len() - 1].range.end == post_count,
        forall|i: int|
            0 <= i < pages.len() - 1 ==> #[trigger] pages[i].range.end == pages[i + 1].range.start,
        forall|i: int|
            0 <= i < pages.len() ==> #[trigger] pages[i].range.start < pages[i].range.end
                <= pages[i].range.start + factor,
        forall|i: int|
            0 <= i < pages.len() - 1 ==> #[trigger] pages[i].range.end == pages[i].range.start
                + factor,
{
    lemma_page_count_bounds(post_count, factor);
    let pc = pages.len() as int;
    assert(page_laid_out(pages, 0, post_count, factor));
    assert(page_laid_out(pages, pc - 1, post_count, factor));
    assert((pc - 1 + 1) * factor == pc * factor);
    assert forall|i: int| 0 <= i < pc - 1 implies #[trigger] pages[i].range.end == pages[i
        + 1].range.start by {
        assert(page_laid_out(pages, i, post_count, factor));
        assert(page_laid_out(pages, i + 1, post_count, factor));
        lemma_mul_le(i + 1, pc - 1, factor);
    }
    assert forall|i: int| 0 <= i < pc implies #[trigger] pages[i].range.start < pages[i].range.end
        <= pages[i].range.start + factor by {
        assert(page_laid_out(pages, i, post_count, factor));
        lemma_mul_le(i, pc - 1, factor);
        assert((i + 1) * factor == i * factor + factor) by (nonlinear_arith);
    }
    assert forall|i: int| 0 <= i < pc - 1 implies #[trigger] pages[i].range.end == pages[i].range.start
        + factor by {
        assert(page_laid_out(pages, i, post_count, factor));
        lemma_mul_le(i + 1, pc - 1, factor);
        assert((i + 1) * factor == i * factor + factor) by (nonlinear_arith);
    }
}

/// A layout is fixed by the post count, the factor and the router: two
/// layouts whose page paths a router gave, where it gives each page number
/// one path, are the same. So the pages the paginate handler attaches are
/// those `pages` returns for the target's item count.
pub proof fn lemma_layout_unique<R: Fn(usize) -> String>(
    router: R,
    a: Seq<Page>,
    b: Seq<Page>,
    post_count: int,
    factor: int,
)
    requires
        laid_out(a, post_count, factor),
        laid_out(b, post_count, factor),
        forall|i: int| 0 <= i < a.len() ==> call_ensures(router, (i as usize,), #[trigger] a[i].curr.1),
        forall|i: int| 0 <= i < b.len() ==> call_ensures(router, (i as usize,), #[trigger] b[i].curr.1),
        forall|n: usize, s1: String, s2: String|
            #[trigger] call_ensures(router, (n,), s1) && #[trigger] call_ensures(router, (n,), s2) ==> s1 == s2,
    ensures
        a == b,
{
    assert forall|i: int| 0 <= i < a.len() implies a[i].curr == b[i].curr by {
        assert(page_laid_out(a, i, post_count, factor));
        assert(page_laid_out(b, i, post_count, factor));
        assert(call_ensures(router, (i as usize,), a[i].curr.1));
        assert(call_ensures(router, (i as usize,), b[i].curr.1));
    }
    assert forall|i: int| 0 <= i < a.len() implies a[i] == b[i] by {
        assert(page_laid_out(a, i, post_count, factor));
        assert(page_laid_out(b, i, post_count, factor));
        let last = a.len() - 1;
        assert(a[last].curr == b[last].curr);
        assert(a[0].curr == b[0].curr);
        assert(page_laid_out(a, 0, post_count, factor));
        assert(page_laid_out(b, 0, post_count, factor));
        if i > 0 {
            assert(a[i - 1].curr == b[i - 1].curr);
        }
        if i < last {
            assert(a[i + 1].curr == b[i + 1].curr);
        }
    }
    assert(a =~= b);
}

} // verus!
