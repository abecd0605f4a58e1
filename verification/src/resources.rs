use vstd::prelude::*;
use crate::strmap::{
    StrMap, lemma_map_total_empty, lemma_map_total_insert, lemma_map_total_remove,
    lemma_seq_total_prefix, map_total, seq_total,
};
use crate::text::{chars_of, decimal, lemma_decimal_digits, lemma_decimal_injective, push_decimal, string_of};

verus! {

broadcast use vstd::string::group_string_axioms;

#[verifier::external_type_specification]
#[verifier::external_body]
pub struct ExInstant(std::time::Instant);

/// Reads the clock (`std::time::Instant::now`). Nothing is stated of the instant: it depends on
/// the time of the call.
#[verifier::external_body]
fn now() -> std::time::Instant {
    std::time::Instant::now()
}

/// What a rendered page holds on to.
pub struct PageResources {
    pub url: String,
    pub pixel_buffer: Vec<u8>,
    pub allocated_at: std::time::Instant,
}

/// A page's resources as a mathematical value (the instant is left out).
pub struct PageRes {
    pub url: Seq<char>,
    pub pixels: Seq<u8>,
}

impl View for PageResources {
    type V = PageRes;

    open spec fn view(&self) -> PageRes {
        PageRes { url: self.url@, pixels: self.pixel_buffer@ }
    }
}

/// The id of the page allocated `n`-th for `url`: the URL, `-` and `n` in decimal.
pub open spec fn page_id(url: Seq<char>, n: nat) -> Seq<char> {
    url + "-"@ + decimal(n)
}

/// The number of pixel bytes of a page.
pub open spec fn buffer_len() -> spec_fn(PageRes) -> nat {
    |p: PageRes| p.pixels.len()
}

/// The pages held, by id, and the number that the next page's id will carry.
pub struct RmState {
    pub pages: Map<Seq<char>, PageRes>,
    pub next_id: nat,
}

/// Keeps the resources of rendered pages, each under an id of its own.
pub struct ResourceManager {
    pages: StrMap<PageResources>,
    next_id: u64,
}

impl View for ResourceManager {
    type V = RmState;

    closed spec fn view(&self) -> RmState {
        RmState { pages: self.pages@, next_id: self.next_id as nat }
    }
}

/// No two allocations, whatever their URLs, get the same id.
pub proof fn law_page_ids_distinct(u1: Seq<char>, n1: nat, u2: Seq<char>, n2: nat)
    requires
        page_id(u1, n1) == page_id(u2, n2),
    ensures
        u1 == u2,
        n1 == n2,
{
    reveal_strlit("-");
    let d1 = decimal(n1);
    let d2 = decimal(n2);
    let s = page_id(u1, n1);
    lemma_decimal_digits(n1);
    lemma_decimal_digits(n2);
    let len = s.len() as int;
    assert(s == u1 + seq!['-'] + d1);
    assert(s == u2 + seq!['-'] + d2);
    if d1.len() < d2.len() {
        let p = len - d1.len() - 1;
        assert(s[p] == '-');
        assert(s[p] == d2[p - (len - d2.len())]);
    } else if d2.len() < d1.len() {
        let p = len - d2.len() - 1;
        assert(s[p] == '-');
        assert(s[p] == d1[p - (len - d1.len())]);
    }
    assert(d1 =~= s.subrange(len - d1.len(), len));
    assert(d2 =~= s.subrange(len - d2.len(), len));
    lemma_decimal_injective(n1, n2);
    assert(u1 =~= s.take(u1.len() as int));
    assert(u2 =~= s.take(u2.len() as int));
}

impl ResourceManager {
    /// Every id held is that of an earlier allocation.
    pub closed spec fn wf(&self) -> bool {
        &&& self.pages.wf()
        &&& forall|k: Seq<char>|
            #[trigger] self.pages@.contains_key(k) ==> exists|u: Seq<char>, n: nat|
                n < self.next_id && k == page_id(u, n)
    }

    /// The pages held are finitely many.
    pub proof fn lemma_finite(&self)
        requires
            self.wf(),
        ensures
            self@.pages.dom().finite(),
    {
        self.pages.lemma_value_total(buffer_len());
    }

    pub fn new() -> (m: Self)
        ensures
            m.wf(),
            m@.pages == Map::<Seq<char>, PageRes>::empty(),
            m@.next_id == 0,
    {
        ResourceManager { pages: StrMap::new(), next_id: 0 }
    }

    /// Keeps the pixels of a page rendered from `url`, under a new id, and gives that id.
    pub fn allocate(&mut self, url: &str, pixels: Vec<u8>) -> (id: String)
        requires
            old(self).wf(),
            old(self)@.next_id < u64::MAX,
        ensures
            final(self).wf(),
            id@ == page_id(url@, old(self)@.next_id),
            !old(self)@.pages.contains_key(id@),
            final(self)@.pages == old(self)@.pages.insert(
                id@,
                PageRes { url: url@, pixels: pixels@ },
            ),
            final(self)@.next_id == old(self)@.next_id + 1,
    {
        let mut v = chars_of(url);
        v.push('-');
        push_decimal(self.next_id, &mut v);
        let page_id = string_of(v.as_slice());
        proof {
            reveal_strlit("-");
            assert(page_id@ =~= crate::resources::page_id(url@, self.next_id as nat));
            if self.pages@.contains_key(page_id@) {
                let (u, n) = choose|u: Seq<char>, n: nat|
                    n < self.next_id && page_id@ == crate::resources::page_id(u, n);
                law_page_ids_distinct(url@, self.next_id as nat, u, n);
            }
        }
        let ghost old_pages = self.pages@;
        let ghost old_next = self.next_id as nat;
        self.next_id += 1;
        let res = PageResources { url: url.to_string(), pixel_buffer: pixels, allocated_at: now() };
        self.pages.insert(page_id.clone(), res);
        proof {
            assert forall|k: Seq<char>| #[trigger] self.pages@.contains_key(k) implies exists|
                u: Seq<char>,
                n: nat,
            | n < self.next_id && k == crate::resources::page_id(u, n) by {
                if k == page_id@ {
                    assert(old_next < self.next_id && k == crate::resources::page_id(url@, old_next));
                } else {
                    assert(old_pages.contains_key(k));
                    let (u, n) = choose|u: Seq<char>, n: nat|
                        n < old_next && k == crate::resources::page_id(u, n);
                    assert(n < self.next_id && k == crate::resources::page_id(u, n));
                }
            }
        }
        page_id
    }

    /// The number that the next page's id will carry.
    pub fn next_id(&self) -> (n: u64)
        ensures
            n == self@.next_id,
    {
        self.next_id
    }

    /// Drops the page with id `page_id`, if it is held.
    pub fn release(&mut self, page_id: &str)
        requires
            old(self).wf(),
        ensures
            final(self).wf(),
            final(self)@.pages == old(self)@.pages.remove(page_id@),
            final(self)@.next_id == old(self)@.next_id,
    {
        let ghost before = self.pages@;
        self.pages.remove(page_id);
        proof {
            assert forall|k: Seq<char>| #[trigger] self.pages@.contains_key(k) implies exists|
                u: Seq<char>,
                n: nat,
            | n < self.next_id && k == crate::resources::page_id(u, n) by {
                assert(before.contains_key(k));
            }
        }
    }

    /// Drops every page.
    pub fn release_all(&mut self)
        requires
            old(self).wf(),
        ensures
            final(self).wf(),
            final(self)@.pages == Map::<Seq<char>, PageRes>::empty(),
            final(self)@.next_id == old(self)@.next_id,
    {
        self.pages.clear();
    }

    /// The resources of page `page_id`, if it is held.
    pub fn get(&self, page_id: &str) -> (r: Option<&PageResources>)
        requires
            self.wf(),
        ensures
            match r {
                Some(p) => self@.pages.contains_key(page_id@) && p@ == self@.pages[page_id@],
                None => !self@.pages.contains_key(page_id@),
            },
    {
        self.pages.get(page_id)
    }

    /// The number of pages held.
    pub fn page_count(&self) -> (n: usize)
        requires
            self.wf(),
        ensures
            n == self@.pages.len(),
    {
        self.pages.len()
    }

    /// The pixel bytes held, over all pages.
    pub fn total_memory_bytes(&self) -> (n: usize)
        requires
            self.wf(),
            map_total(self@.pages, buffer_len()) <= usize::MAX,
        ensures
            n == map_total(self@.pages, buffer_len()),
    {
        let f = Ghost(buffer_len());
        proof {
            self.pages.lemma_value_total(f@);
        }
        let ghost vals = self.pages.value_seq();
        let count = self.pages.count();
        let mut sum: usize = 0;
        let mut i: usize = 0;
        while i < count
            invariant
                self.wf(),
                count == vals.len(),
                vals == self.pages.value_seq(),
                i <= count,
                sum == seq_total(vals.take(i as int), f@),
                seq_total(vals, f@) == map_total(self@.pages, buffer_len()),
                f@ == buffer_len(),
                map_total(self@.pages, buffer_len()) <= usize::MAX,
            decreases count - i,
        {
            let p = self.pages.value_at(i);
            proof {
                assert(vals.take(i + 1).drop_last() =~= vals.take(i as int));
                assert(vals.take(i + 1).last() == vals[i as int]);
                lemma_seq_total_prefix(vals, f@, i + 1);
            }
            sum = sum + p.pixel_buffer.len();
            i += 1;
        }
        proof {
            assert(vals.take(count as int) =~= vals);
        }
        sum
    }
}

/// An allocation adds one page, and its pixels to the total.
pub proof fn law_allocation_counts(before: RmState, url: Seq<char>, pixels: Seq<u8>)
    requires
        before.pages.dom().finite(),
        !before.pages.contains_key(page_id(url, before.next_id)),
    ensures
        before.pages.insert(page_id(url, before.next_id), PageRes { url, pixels }).len()
            == before.pages.len() + 1,
        map_total(
            before.pages.insert(page_id(url, before.next_id), PageRes { url, pixels }),
            buffer_len(),
        ) == map_total(before.pages, buffer_len()) + pixels.len(),
{
    lemma_map_total_insert(
        before.pages,
        buffer_len(),
        page_id(url, before.next_id),
        PageRes { url, pixels },
    );
}

/// With nothing held, nothing is counted.
pub proof fn law_nothing_held()
    ensures
        map_total(Map::<Seq<char>, PageRes>::empty(), buffer_len()) == 0,
        Map::<Seq<char>, PageRes>::empty().len() == 0,
{
    lemma_map_total_empty(buffer_len());
}

/// Releasing a held page takes its pixels off the total.
pub proof fn law_release_counts(before: RmState, id: Seq<char>)
    requires
        before.pages.dom().finite(),
        before.pages.contains_key(id),
    ensures
        map_total(before.pages.remove(id), buffer_len()) + before.pages[id].pixels.len()
            == map_total(before.pages, buffer_len()),
        before.pages.remove(id).len() + 1 == before.pages.len(),
{
    lemma_map_total_remove(before.pages, buffer_len(), id);
}

} // verus!
