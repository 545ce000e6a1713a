use vstd::prelude::*;
use crate::resource::{Resource, N_RESOURCES, resource_index, resource_named};
use crate::patterns::{find_all, regex_matches, strings_view};

verus! {

/// A count of cards for each resource kind, indexed by `resource_index`.
#[derive(Debug, Clone, Copy, PartialEq, Eq, Hash, Default)]
pub struct Hand(pub [u8; N_RESOURCES]);

/// `h` holds exactly one card, of kind `res`.
pub open spec fn is_unit(h: Hand, res: Resource) -> bool {
    forall|k: int|
        0 <= k < N_RESOURCES ==> #[trigger] h.count(k) == if k == resource_index(res) {
            1int
        } else {
            0int
        }
}

/// The hand with exactly one card, of kind `res`.
pub open spec fn unit_hand(res: Resource) -> Hand {
    match res {
        Resource::Lumber => Hand([1, 0, 0, 0, 0]),
        Resource::Brick => Hand([0, 1, 0, 0, 0]),
        Resource::Wool => Hand([0, 0, 1, 0, 0]),
        Resource::Grain => Hand([0, 0, 0, 1, 0]),
        Resource::Ore => Hand([0, 0, 0, 0, 1]),
    }
}

/// A hand with only the given counts: `counts[k]` cards of kind `k`.
pub open spec fn hand_is(h: Hand, counts: Seq<int>) -> bool {
    forall|k: int| 0 <= k < N_RESOURCES ==> #[trigger] h.count(k) == counts[k]
}

/// The pattern of one card word in a hand text.
pub open spec fn card_word_pattern() -> Seq<char> {
    "(lumber|brick|wool|grain|ore)"@
}

/// How many of the words name the resource kind at position `k`.
pub open spec fn word_count(words: Seq<Seq<char>>, k: int) -> nat
    decreases words.len(),
{
    if words.len() == 0 {
        0
    } else {
        word_count(words.drop_last(), k) + match resource_named(words.last()) {
            Some(r) => if resource_index(r) == k {
                1nat
            } else {
                0nat
            },
            None => 0nat,
        }
    }
}

/// Every word names a resource kind.
pub open spec fn all_named(words: Seq<Seq<char>>) -> bool {
    forall|i: int| 0 <= i < words.len() ==> (#[trigger] resource_named(words[i])) is Some
}

/// Each count of `h` is the number of words that name that kind.
pub open spec fn counts_words(h: Hand, words: Seq<Seq<char>>) -> bool {
    forall|k: int| 0 <= k < N_RESOURCES ==> #[trigger] h.count(k) == word_count(words, k)
}

/// The hand that counts the words, if each names a kind and no count passes 255.
pub open spec fn counted_hand(words: Seq<Seq<char>>) -> Option<Hand> {
    if all_named(words) && forall|k: int| 0 <= k < N_RESOURCES ==> #[trigger] word_count(words, k) <= 255 {
        Some(choose|h: Hand| #[trigger] counts_words(h, words))
    } else {
        None
    }
}

/// The hand that a text such as `"lumberwoolwool"` describes: one card per card word found.
pub open spec fn hand_in_text(text: Seq<char>) -> Option<Hand> {
    counted_hand(regex_matches(card_word_pattern(), text))
}

/// A prefix of the words counts no more of a kind than all of them.
pub proof fn lemma_word_count_prefix(words: Seq<Seq<char>>, k: int, i: int)
    requires
        0 <= i <= words.len(),
    ensures
        word_count(words.take(i), k) <= word_count(words, k),
    decreases words.len(),
{
    if i == words.len() {
        assert(words.take(i) =~= words);
    } else {
        assert(words.take(i) =~= words.drop_last().take(i));
        lemma_word_count_prefix(words.drop_last(), k, i);
    }
}

impl Hand {
    /// Number of cards of the kind at position `k`.
    pub open spec fn count(self, k: int) -> int {
        self.0[k] as int
    }

    /// Every count of `self` is at least the matching count of `other`.
    pub open spec fn covers(self, other: Hand) -> bool {
        forall|k: int| 0 <= k < N_RESOURCES ==> #[trigger] self.count(k) >= other.count(k)
    }

    /// The componentwise sum of `self` and `other` fits in 8 bits.
    pub open spec fn can_sum(self, other: Hand) -> bool {
        forall|k: int| 0 <= k < N_RESOURCES ==> #[trigger] self.count(k) + other.count(k) <= 255
    }

    /// `self` is the componentwise sum of `a` and `b`.
    pub open spec fn is_sum(self, a: Hand, b: Hand) -> bool {
        forall|k: int| 0 <= k < N_RESOURCES ==> #[trigger] self.count(k) == a.count(k) + b.count(k)
    }

    /// `self` is the componentwise difference `a - b`.
    pub open spec fn is_diff(self, a: Hand, b: Hand) -> bool {
        forall|k: int| 0 <= k < N_RESOURCES ==> #[trigger] self.count(k) == a.count(k) - b.count(k)
    }

    /// The hand with no cards.
    pub fn empty() -> (r: Hand)
        ensures
            forall|k: int| 0 <= k < N_RESOURCES ==> #[trigger] r.count(k) == 0,
    {
        Hand([0, 0, 0, 0, 0])
    }

    /// The hand with exactly one card, of kind `res`.
    pub fn unit(res: Resource) -> (r: Hand)
        ensures
            r == unit_hand(res),
            is_unit(r, res),
    {
        match res {
            Resource::Lumber => Hand([1, 0, 0, 0, 0]),
            Resource::Brick => Hand([0, 1, 0, 0, 0]),
            Resource::Wool => Hand([0, 0, 1, 0, 0]),
            Resource::Grain => Hand([0, 0, 0, 1, 0]),
            Resource::Ore => Hand([0, 0, 0, 0, 1]),
        }
    }

    /// Reads a hand from text by counting the card words in it (`"lumberwoolwool"` is one
    /// lumber and two wool); `None` where a count would pass 255.
    pub fn from_text(text: &str) -> (r: Option<Hand>)
        ensures
            r == hand_in_text(text@),
    {
        let words = find_all("(lumber|brick|wool|grain|ore)", text);
        let ghost ws = strings_view(words@);
        assert(hand_in_text(text@) == counted_hand(ws));
        let n = words.len();
        let mut arr: [u8; N_RESOURCES] = [0, 0, 0, 0, 0];
        let mut i: usize = 0;
        while i < n
            invariant
                ws == strings_view(words@),
                hand_in_text(text@) == counted_hand(ws),
                n == ws.len(),
                i <= n,
                all_named(ws.take(i as int)),
                forall|k: int| 0 <= k < N_RESOURCES ==> #[trigger] arr[k] as nat == word_count(ws.take(i as int), k),
            decreases n - i,
        {
            proof {
                assert(ws.take(i + 1).drop_last() =~= ws.take(i as int));
                assert(ws.take(i + 1).last() == ws[i as int]);
                assert(ws[i as int] == words@[i as int]@);
            }
            match Resource::from_name(words[i].as_str()) {
                None => {
                    proof {
                        assert(resource_named(ws[i as int]) is None);
                        assert(!all_named(ws));
                    }
                    return None;
                },
                Some(res) => {
                    let k = res.index();
                    if arr[k] == 255 {
                        proof {
                            lemma_word_count_prefix(ws, k as int, i + 1);
                            assert(word_count(ws.take(i + 1), k as int) == 256);
                        }
                        return None;
                    }
                    arr[k] = arr[k] + 1;
                    proof {
                        assert forall|j: int| 0 <= j < i + 1 implies (#[trigger] resource_named(ws.take(i + 1)[j])) is Some by {
                            if j < i {
                                assert(ws.take(i + 1)[j] == ws.take(i as int)[j]);
                            }
                        }
                    }
                },
            }
            i += 1;
        }
        proof {
            assert(ws.take(n as int) =~= ws);
        }
        let h = Hand(arr);
        proof {
            assert(counts_words(h, ws));
            assert(all_named(ws));
            assert forall|k: int| 0 <= k < N_RESOURCES implies #[trigger] word_count(ws, k) <= 255 by {
                assert(h.count(k) == word_count(ws, k));
            }
            let c = choose|c: Hand| #[trigger] counts_words(c, ws);
            assert(counts_words(c, ws));
            lemma_hand_ext(h, c);
        }
        Some(h)
    }

    /// Number of cards of kind `res`.
    pub fn get(self, res: Resource) -> (r: u8)
        ensures
            r as int == self.count(resource_index(res)),
    {
        self.0[res.index()]
    }

    /// Sets the number of cards of kind `res`.
    pub fn set(&mut self, res: Resource, n: u8)
        ensures
            forall|k: int|
                0 <= k < N_RESOURCES ==> #[trigger] final(self).count(k) == if k == resource_index(
                    res,
                ) {
                    n as int
                } else {
                    old(self).count(k)
                },
    {
        self.0[res.index()] = n;
    }

    /// The five counts, in resource order.
    pub fn values(self) -> (r: [u8; N_RESOURCES])
        ensures
            forall|k: int| 0 <= k < N_RESOURCES ==> #[trigger] r[k] as int == self.count(k),
    {
        self.0
    }

    /// The five (kind, count) pairs, in resource order.
    pub fn pairs(self) -> (r: [(Resource, u8); N_RESOURCES])
        ensures
            forall|k: int|
                0 <= k < N_RESOURCES ==> resource_index(#[trigger] r[k].0) == k && r[k].1 as int
                    == self.count(k),
    {
        [
            (Resource::Lumber, self.0[0]),
            (Resource::Brick, self.0[1]),
            (Resource::Wool, self.0[2]),
            (Resource::Grain, self.0[3]),
            (Resource::Ore, self.0[4]),
        ]
    }

    /// Whether every count of `self` is at least the matching count of `other`.
    pub fn has(self, other: Hand) -> (r: bool)
        ensures
            r == self.covers(other),
    {
        let mut k: usize = 0;
        while k < N_RESOURCES
            invariant
                k <= N_RESOURCES,
                forall|j: int| 0 <= j < k ==> #[trigger] self.count(j) >= other.count(j),
            decreases N_RESOURCES - k,
        {
            if self.0[k] < other.0[k] {
                assert(self.count(k as int) < other.count(k as int));
                return false;
            }
            k += 1;
        }
        true
    }

    /// Whether the componentwise sum with `other` fits in 8 bits.
    pub fn fits_with(self, other: Hand) -> (r: bool)
        ensures
            r == self.can_sum(other),
    {
        let mut k: usize = 0;
        while k < N_RESOURCES
            invariant
                k <= N_RESOURCES,
                forall|j: int| 0 <= j < k ==> #[trigger] self.count(j) + other.count(j) <= 255,
            decreases N_RESOURCES - k,
        {
            if self.0[k] > 255 - other.0[k] {
                assert(self.count(k as int) + other.count(k as int) > 255);
                return false;
            }
            k += 1;
        }
        true
    }

    /// Componentwise sum.
    pub fn plus(self, other: Hand) -> (r: Hand)
        requires
            self.can_sum(other),
        ensures
            r.is_sum(self, other),
    {
        let mut a = self.0;
        let mut k: usize = 0;
        while k < N_RESOURCES
            invariant
                k <= N_RESOURCES,
                self.can_sum(other),
                forall|j: int| 0 <= j < k ==> #[trigger] a[j] as int == self.count(j) + other.count(j),
                forall|j: int| k <= j < N_RESOURCES ==> #[trigger] a[j] == self.0[j],
            decreases N_RESOURCES - k,
        {
            assert(self.count(k as int) + other.count(k as int) <= 255);
            a[k] = a[k] + other.0[k];
            k += 1;
        }
        let r = Hand(a);
        assert forall|j: int| 0 <= j < N_RESOURCES implies #[trigger] r.count(j) == self.count(j)
            + other.count(j) by {
            assert(a[j] as int == self.count(j) + other.count(j));
        }
        r
    }

    /// Componentwise difference; `self` must cover `other`.
    pub fn minus(self, other: Hand) -> (r: Hand)
        requires
            self.covers(other),
        ensures
            r.is_diff(self, other),
    {
        let mut a = self.0;
        let mut k: usize = 0;
        while k < N_RESOURCES
            invariant
                k <= N_RESOURCES,
                self.covers(other),
                forall|j: int| 0 <= j < k ==> #[trigger] a[j] as int == self.count(j) - other.count(j),
                forall|j: int| k <= j < N_RESOURCES ==> #[trigger] a[j] == self.0[j],
            decreases N_RESOURCES - k,
        {
            assert(self.count(k as int) >= other.count(k as int));
            a[k] = a[k] - other.0[k];
            k += 1;
        }
        let r = Hand(a);
        assert forall|j: int| 0 <= j < N_RESOURCES implies #[trigger] r.count(j) == self.count(j)
            - other.count(j) by {
            assert(a[j] as int == self.count(j) - other.count(j));
        }
        r
    }
}

/// Two hands with the same counts are the same hand.
pub proof fn lemma_hand_ext(a: Hand, b: Hand)
    requires
        forall|k: int| 0 <= k < N_RESOURCES ==> #[trigger] a.count(k) == b.count(k),
    ensures
        a == b,
{
    assert(a.0 =~= b.0) by {
        assert forall|k: int| 0 <= k < N_RESOURCES implies a.0[k] == b.0[k] by {
            assert(a.count(k) == b.count(k));
        }
    }
}

impl From<[u8; N_RESOURCES]> for Hand {
    /// The hand with these counts, in resource order.
    fn from(counts: [u8; N_RESOURCES]) -> (r: Hand)
        ensures
            r.0 == counts,
    {
        Hand(counts)
    }
}

impl vstd::std_specs::convert::FromSpecImpl<[u8; N_RESOURCES]> for Hand {
    open spec fn obeys_from_spec() -> bool {
        true
    }

    open spec fn from_spec(counts: [u8; N_RESOURCES]) -> Hand {
        Hand(counts)
    }
}

impl From<Resource> for Hand {
    /// The hand with exactly one card, of kind `res`.
    fn from(res: Resource) -> (r: Hand)
        ensures
            is_unit(r, res),
    {
        let r = Hand::unit(res);
        proof {
            let c = choose|h: Hand| is_unit(h, res);
            assert(is_unit(c, res));
            lemma_hand_ext(r, c);
        }
        r
    }
}

impl vstd::std_specs::convert::FromSpecImpl<Resource> for Hand {
    open spec fn obeys_from_spec() -> bool {
        true
    }

    open spec fn from_spec(res: Resource) -> Hand {
        choose|h: Hand| is_unit(h, res)
    }
}

} // verus!
