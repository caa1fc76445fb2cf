//! Spans across a range of days.
//!
//! A receiver stamps `received_at` on arrival, so real traffic only ever lands
//! in today's partition: there is nothing for partition pruning to skip and
//! nothing for compaction to walk. Seeding backdates the arrival instead, so
//! the rows in a partition are the rows that partition claims to hold.

use vstd::prelude::*;

use crate::record::{Common, CommonView};
use crate::spans::{span_views, Span, SpanView, Status};
use crate::text::{contains, contains_text, same_text, segments, split, str_views};
use crate::types::{
    entry_views, in_range, last_values, Entry, Id, SpanId, Tags, Timestamp, TraceId,
};

verus! {

/// A span within a shape: which service ran it, what it is called, how much of
/// its parent's time it takes in percent, and which earlier entry is its
/// parent, 0 being the root. Declared rather than inferred, so a query nests
/// under the call that issued it.
#[derive(Clone, Copy, Debug)]
pub struct Step {
    pub service: &'static str,
    pub name: &'static str,
    pub share: u64,
    pub parent: usize,
}

/// A step, as plain values.
pub struct StepView {
    pub service: Seq<char>,
    pub name: Seq<char>,
    pub share: int,
    pub parent: int,
}

impl View for Step {
    type V = StepView;

    open spec fn view(&self) -> StepView {
        StepView {
            service: self.service@,
            name: self.name@,
            share: self.share as int,
            parent: self.parent as int,
        }
    }
}

pub open spec fn step_views(steps: Seq<Step>) -> Seq<StepView> {
    steps.map_values(|step: Step| step@)
}

/// What a kind of trace looks like: its root, and the calls beneath it.
///
/// The services and operations are the OpenTelemetry demo's, the astronomy
/// shop, so a trace here reads like one from the shop it is standing in for.
/// The shapes are not: real ones nest through a proxy and a browser SDK and are
/// hard to follow at a glance, and this is a store being shown, not a webshop.
#[derive(Debug)]
pub struct Shape {
    pub service: &'static str,
    pub operation: &'static str,
    pub millis: i64,
    pub steps: Vec<Step>,
}

/// A shape, as plain values.
pub struct ShapeView {
    pub service: Seq<char>,
    pub operation: Seq<char>,
    pub millis: int,
    pub steps: Seq<StepView>,
}

impl View for Shape {
    type V = ShapeView;

    open spec fn view(&self) -> ShapeView {
        ShapeView {
            service: self.service@,
            operation: self.operation@,
            millis: self.millis as int,
            steps: step_views(self.steps@),
        }
    }
}

/// How many shapes there are.
pub const SHAPES: u64 = 8;

fn step(service: &'static str, name: &'static str, share: u64, parent: usize) -> (step: Step)
    ensures
        step@ == spec_step(service@, name@, share as int, parent as int),
{
    Step { service, name, share, parent }
}

pub open spec fn spec_step(service: Seq<char>, name: Seq<char>, share: int, parent: int) -> StepView {
    StepView { service, name, share, parent }
}

pub open spec fn spec_products_shape() -> ShapeView {
    ShapeView {
        service: "frontend"@,
        operation: "GET /api/products"@,
        millis: 180,
        steps: seq![
            spec_step("product-catalog"@, "oteldemo.ProductCatalogService/ListProducts"@, 74, 0),
            spec_step("product-catalog"@, "SELECT products"@, 68, 1),
            spec_step("ad"@, "oteldemo.AdService/GetAds"@, 21, 0),
        ],
    }
}

fn products_shape() -> (shape: Shape)
    ensures
        shape@ == spec_products_shape(),
{
    let mut steps: Vec<Step> = Vec::new();
    steps.push(step("product-catalog", "oteldemo.ProductCatalogService/ListProducts", 74, 0));
    steps.push(step("product-catalog", "SELECT products", 68, 1));
    steps.push(step("ad", "oteldemo.AdService/GetAds", 21, 0));
    let shape = Shape { service: "frontend", operation: "GET /api/products", millis: 180, steps };
    assert(shape@.steps =~= spec_products_shape().steps);
    shape
}

pub open spec fn spec_cart_shape() -> ShapeView {
    ShapeView {
        service: "frontend"@,
        operation: "POST /api/cart"@,
        millis: 240,
        steps: seq![
            spec_step("product-catalog"@, "oteldemo.ProductCatalogService/GetProduct"@, 26, 0),
            spec_step("cart"@, "oteldemo.CartService/AddItem"@, 58, 0),
            spec_step("cart"@, "HSET cart"@, 61, 2),
        ],
    }
}

fn cart_shape() -> (shape: Shape)
    ensures
        shape@ == spec_cart_shape(),
{
    let mut steps: Vec<Step> = Vec::new();
    steps.push(step("product-catalog", "oteldemo.ProductCatalogService/GetProduct", 26, 0));
    steps.push(step("cart", "oteldemo.CartService/AddItem", 58, 0));
    steps.push(step("cart", "HSET cart", 61, 2));
    let shape = Shape { service: "frontend", operation: "POST /api/cart", millis: 240, steps };
    assert(shape@.steps =~= spec_cart_shape().steps);
    shape
}

pub open spec fn spec_checkout_shape() -> ShapeView {
    ShapeView {
        service: "frontend"@,
        operation: "POST /api/checkout"@,
        millis: 1450,
        steps: seq![
            spec_step("cart"@, "oteldemo.CartService/GetCart"@, 8, 0),
            spec_step("cart"@, "HGET cart"@, 55, 1),
            spec_step("currency"@, "oteldemo.CurrencyService/Convert"@, 5, 0),
            spec_step("checkout"@, "oteldemo.CheckoutService/PlaceOrder"@, 71, 0),
            spec_step("payment"@, "oteldemo.PaymentService/Charge"@, 44, 4),
            spec_step("shipping"@, "oteldemo.ShippingService/ShipOrder"@, 19, 4),
            spec_step("email"@, "oteldemo.EmailService/SendOrderConfirmation"@, 12, 4),
            spec_step("accounting"@, "consume order"@, 6, 0),
        ],
    }
}

fn checkout_shape() -> (shape: Shape)
    ensures
        shape@ == spec_checkout_shape(),
{
    let mut steps: Vec<Step> = Vec::new();
    steps.push(step("cart", "oteldemo.CartService/GetCart", 8, 0));
    steps.push(step("cart", "HGET cart", 55, 1));
    steps.push(step("currency", "oteldemo.CurrencyService/Convert", 5, 0));
    steps.push(step("checkout", "oteldemo.CheckoutService/PlaceOrder", 71, 0));
    steps.push(step("payment", "oteldemo.PaymentService/Charge", 44, 4));
    steps.push(step("shipping", "oteldemo.ShippingService/ShipOrder", 19, 4));
    steps.push(step("email", "oteldemo.EmailService/SendOrderConfirmation", 12, 4));
    steps.push(step("accounting", "consume order", 6, 0));
    let shape = Shape { service: "frontend", operation: "POST /api/checkout", millis: 1450, steps };
    assert(shape@.steps =~= spec_checkout_shape().steps);
    shape
}

pub open spec fn spec_recommendations_shape() -> ShapeView {
    ShapeView {
        service: "frontend"@,
        operation: "GET /api/recommendations"@,
        millis: 320,
        steps: seq![
            spec_step("recommendation"@, "oteldemo.RecommendationService/ListRecommendations"@, 68, 0),
            spec_step("product-catalog"@, "oteldemo.ProductCatalogService/ListProducts"@, 47, 1),
        ],
    }
}

fn recommendations_shape() -> (shape: Shape)
    ensures
        shape@ == spec_recommendations_shape(),
{
    let mut steps: Vec<Step> = Vec::new();
    steps.push(step("recommendation", "oteldemo.RecommendationService/ListRecommendations", 68, 0));
    steps.push(step("product-catalog", "oteldemo.ProductCatalogService/ListProducts", 47, 1));
    let shape = Shape { service: "frontend", operation: "GET /api/recommendations", millis: 320, steps };
    assert(shape@.steps =~= spec_recommendations_shape().steps);
    shape
}

pub open spec fn spec_data_shape() -> ShapeView {
    ShapeView {
        service: "frontend"@,
        operation: "GET /api/data"@,
        millis: 95,
        steps: seq![
            spec_step("ad"@, "oteldemo.AdService/GetAds"@, 72, 0),
        ],
    }
}

fn data_shape() -> (shape: Shape)
    ensures
        shape@ == spec_data_shape(),
{
    let mut steps: Vec<Step> = Vec::new();
    steps.push(step("ad", "oteldemo.AdService/GetAds", 72, 0));
    let shape = Shape { service: "frontend", operation: "GET /api/data", millis: 95, steps };
    assert(shape@.steps =~= spec_data_shape().steps);
    shape
}

pub open spec fn spec_currency_shape() -> ShapeView {
    ShapeView {
        service: "frontend"@,
        operation: "POST /api/currency"@,
        millis: 70,
        steps: seq![
            spec_step("currency"@, "oteldemo.CurrencyService/Convert"@, 61, 0),
        ],
    }
}

fn currency_shape() -> (shape: Shape)
    ensures
        shape@ == spec_currency_shape(),
{
    let mut steps: Vec<Step> = Vec::new();
    steps.push(step("currency", "oteldemo.CurrencyService/Convert", 61, 0));
    let shape = Shape { service: "frontend", operation: "POST /api/currency", millis: 70, steps };
    assert(shape@.steps =~= spec_currency_shape().steps);
    shape
}

pub open spec fn spec_shipping_shape() -> ShapeView {
    ShapeView {
        service: "frontend"@,
        operation: "GET /api/shipping"@,
        millis: 210,
        steps: seq![
            spec_step("quote"@, "oteldemo.QuoteService/GetQuote"@, 63, 0),
            spec_step("shipping"@, "oteldemo.ShippingService/GetQuote"@, 44, 1),
        ],
    }
}

fn shipping_shape() -> (shape: Shape)
    ensures
        shape@ == spec_shipping_shape(),
{
    let mut steps: Vec<Step> = Vec::new();
    steps.push(step("quote", "oteldemo.QuoteService/GetQuote", 63, 0));
    steps.push(step("shipping", "oteldemo.ShippingService/GetQuote", 44, 1));
    let shape = Shape { service: "frontend", operation: "GET /api/shipping", millis: 210, steps };
    assert(shape@.steps =~= spec_shipping_shape().steps);
    shape
}

pub open spec fn spec_browser_shape() -> ShapeView {
    ShapeView {
        service: "load-generator"@,
        operation: "browser_checkout"@,
        millis: 2600,
        steps: seq![
            spec_step("frontend"@, "GET /api/cart"@, 11, 0),
            spec_step("cart"@, "oteldemo.CartService/GetCart"@, 57, 1),
            spec_step("frontend"@, "POST /api/checkout"@, 74, 0),
            spec_step("checkout"@, "oteldemo.CheckoutService/PlaceOrder"@, 82, 3),
            spec_step("payment"@, "oteldemo.PaymentService/Charge"@, 37, 4),
        ],
    }
}

fn browser_shape() -> (shape: Shape)
    ensures
        shape@ == spec_browser_shape(),
{
    let mut steps: Vec<Step> = Vec::new();
    steps.push(step("frontend", "GET /api/cart", 11, 0));
    steps.push(step("cart", "oteldemo.CartService/GetCart", 57, 1));
    steps.push(step("frontend", "POST /api/checkout", 74, 0));
    steps.push(step("checkout", "oteldemo.CheckoutService/PlaceOrder", 82, 3));
    steps.push(step("payment", "oteldemo.PaymentService/Charge", 37, 4));
    let shape = Shape { service: "load-generator", operation: "browser_checkout", millis: 2600, steps };
    assert(shape@.steps =~= spec_browser_shape().steps);
    shape
}

/// The shapes a trace can have.
pub open spec fn spec_shape(index: int) -> ShapeView {
    if index == 0 {
        spec_products_shape()
    } else if index == 1 {
        spec_cart_shape()
    } else if index == 2 {
        spec_checkout_shape()
    } else if index == 3 {
        spec_recommendations_shape()
    } else if index == 4 {
        spec_data_shape()
    } else if index == 5 {
        spec_currency_shape()
    } else if index == 6 {
        spec_shipping_shape()
    } else {
        spec_browser_shape()
    }
}

/// One of the shapes a trace can have.
pub fn shape(index: u64) -> (shape: Shape)
    requires
        index < SHAPES,
    ensures
        shape@ == spec_shape(index as int),
{
    if index == 0 {
        products_shape()
    } else if index == 1 {
        cart_shape()
    } else if index == 2 {
        checkout_shape()
    } else if index == 3 {
        recommendations_shape()
    } else if index == 4 {
        data_shape()
    } else if index == 5 {
        currency_shape()
    } else if index == 6 {
        shipping_shape()
    } else {
        browser_shape()
    }
}

/// How many products there are.
pub const PRODUCTS: u64 = 10;

/// What the shop sells, by its code and its name, so a span someone opens says
/// something recognisable rather than a placeholder.
pub open spec fn spec_product(index: int) -> (Seq<char>, Seq<char>) {
    if index == 0 {
        ("OLJCESPC7Z"@, "National Park Foundation Explorascope"@)
    } else if index == 1 {
        ("66VCHSJNUP"@, "Starsense Explorer Dobsonian"@)
    } else if index == 2 {
        ("1YMWWN1N4O"@, "Eclipsmart Travel Refractor"@)
    } else if index == 3 {
        ("L9ECAV7KIM"@, "Solar System Color Imager"@)
    } else if index == 4 {
        ("2ZYFJ3GM2N"@, "Roof Binoculars"@)
    } else if index == 5 {
        ("0PUK6V6EV0"@, "Solar Filter"@)
    } else if index == 6 {
        ("HQTGWGPNH4"@, "The Comet Book"@)
    } else if index == 7 {
        ("9SIQT8TOJO"@, "Lens Cleaning Kit"@)
    } else if index == 8 {
        ("6E92ZMYYFZ"@, "Red Flashlight"@)
    } else {
        ("LS4PSXUNUM"@, "Optical Tube Assembly"@)
    }
}

/// What the shop sells.
pub fn product(index: u64) -> (product: (&'static str, &'static str))
    requires
        index < PRODUCTS,
    ensures
        (product.0@, product.1@) == spec_product(index as int),
{
    if index == 0 {
        ("OLJCESPC7Z", "National Park Foundation Explorascope")
    } else if index == 1 {
        ("66VCHSJNUP", "Starsense Explorer Dobsonian")
    } else if index == 2 {
        ("1YMWWN1N4O", "Eclipsmart Travel Refractor")
    } else if index == 3 {
        ("L9ECAV7KIM", "Solar System Color Imager")
    } else if index == 4 {
        ("2ZYFJ3GM2N", "Roof Binoculars")
    } else if index == 5 {
        ("0PUK6V6EV0", "Solar Filter")
    } else if index == 6 {
        ("HQTGWGPNH4", "The Comet Book")
    } else if index == 7 {
        ("9SIQT8TOJO", "Lens Cleaning Kit")
    } else if index == 8 {
        ("6E92ZMYYFZ", "Red Flashlight")
    } else {
        ("LS4PSXUNUM", "Optical Tube Assembly")
    }
}

/// Why a call failed.
pub open spec fn spec_failure(index: int) -> Seq<char> {
    if index == 0 {
        "upstream timeout"@
    } else if index == 1 {
        "connection reset"@
    } else if index == 2 {
        "deadline exceeded"@
    } else {
        "429 rate limited"@
    }
}

fn failure(index: u64) -> (message: String)
    requires
        index < 4,
    ensures
        message@ == spec_failure(index as int),
{
    String::from_str(
        if index == 0 {
            "upstream timeout"
        } else if index == 1 {
            "connection reset"
        } else if index == 2 {
            "deadline exceeded"
        } else {
            "429 rate limited"
        },
    )
}

/// The next state of the generator.
#[verifier::opaque]
pub open spec fn stepped(state: u64) -> u64 {
    state.wrapping_mul(6364136223846793005).wrapping_add(1442695040888963407)
}

/// What a state of the generator reads as. The low bits of a state barely
/// move, so it is mixed before it is used: ids are built from these bytes, and
/// unmixed they collide often enough to fuse unrelated traces into one.
#[verifier::opaque]
pub open spec fn mixed(state: u64) -> u64 {
    let a = state ^ (state >> 30);
    let b = a.wrapping_mul(0xbf58_476d_1ce4_e5b9);
    let c = b ^ (b >> 27);
    let d = c.wrapping_mul(0x94d0_49bb_1331_11eb);
    d ^ (d >> 31)
}

/// The state of the generator some steps on.
pub open spec fn after(state: u64, steps: nat) -> u64
    decreases steps,
{
    if steps == 0 {
        state
    } else {
        stepped(after(state, (steps - 1) as nat))
    }
}

/// What the generator gives at a step, counted from one.
pub open spec fn draw(state: u64, step: nat) -> u64 {
    mixed(after(state, step))
}

proof fn lemma_after(state: u64, a: nat, b: nat)
    ensures
        after(after(state, a), b) == after(state, a + b),
    decreases b,
{
    if b > 0 {
        lemma_after(state, a, (b - 1) as nat);
    }
}

/// Deterministic, so seeding twice gives the same store and a demo can be
/// rehearsed against it.
pub fn next(state: &mut u64) -> (drawn: u64)
    ensures
        *final(state) == stepped(*old(state)),
        drawn == mixed(*final(state)),
        *final(state) == after(*old(state), 1),
        drawn == draw(*old(state), 1),
{
    proof {
        reveal(stepped);
        reveal(mixed);
    }
    *state = state.wrapping_mul(6364136223846793005).wrapping_add(1442695040888963407);
    assert(after(*old(state), 0) == *old(state));
    let start: u64 = *state;
    let a: u64 = start ^ (start >> 30);
    let b: u64 = a.wrapping_mul(0xbf58_476d_1ce4_e5b9);
    let c: u64 = b ^ (b >> 27);
    let d: u64 = c.wrapping_mul(0x94d0_49bb_1331_11eb);
    d ^ (d >> 31)
}

proof fn lemma_wrapping_mul_undone(x: u64, factor: u64, inverse: u64, turns: int)
    requires
        factor * inverse == turns * 0x1_0000_0000_0000_0000 + 1,
    ensures
        x.wrapping_mul(factor).wrapping_mul(inverse) == x,
{
    let m = 0x1_0000_0000_0000_0000int;
    assert(x.wrapping_mul(factor) == (x * factor) % m);
    vstd::arithmetic::div_mod::lemma_mul_mod_noop_left(x * factor, inverse as int, m);
    assert(x * factor * inverse == m * (x * turns) + x) by (nonlinear_arith)
        requires
            factor * inverse == turns * m + 1,
    ;
    vstd::arithmetic::div_mod::lemma_mod_multiples_vanish(x * turns, x as int, m);
    vstd::arithmetic::div_mod::lemma_small_mod(x as nat, m as nat);
}

/// A state of the generator read back from the one after it.
pub open spec fn unstepped(state: u64) -> u64 {
    state.wrapping_sub(1442695040888963407).wrapping_mul(0xc097_ef87_329e_28a5)
}

/// A state of the generator read back from what it reads as.
pub open spec fn unmixed(drawn: u64) -> u64 {
    let d = drawn ^ (drawn >> 31) ^ (drawn >> 62);
    let c = d.wrapping_mul(0x3196_42b2_d24d_8ec3);
    let b = c ^ (c >> 27) ^ (c >> 54);
    let a = b.wrapping_mul(0x96de_1b17_3f11_9089);
    a ^ (a >> 30) ^ (a >> 60)
}

proof fn lemma_unstepped(state: u64)
    ensures
        unstepped(stepped(state)) == state,
{
    reveal(stepped);
    let product = state.wrapping_mul(6364136223846793005);
    assert(product.wrapping_add(1442695040888963407).wrapping_sub(1442695040888963407) == product);
    assert(6364136223846793005u64 * 0xc097_ef87_329e_28a5u64 == 4787856489426250814
        * 0x1_0000_0000_0000_0000 + 1) by (nonlinear_arith);
    lemma_wrapping_mul_undone(
        state,
        6364136223846793005,
        0xc097_ef87_329e_28a5,
        4787856489426250814,
    );
}

proof fn lemma_unmixed(state: u64)
    ensures
        unmixed(mixed(state)) == state,
{
    reveal(mixed);
    let a = state ^ (state >> 30);
    let b = a.wrapping_mul(0xbf58_476d_1ce4_e5b9);
    let c = b ^ (b >> 27);
    let d = c.wrapping_mul(0x94d0_49bb_1331_11eb);
    let drawn = d ^ (d >> 31);
    assert(drawn ^ (drawn >> 31) ^ (drawn >> 62) == d) by (bit_vector)
        requires
            drawn == d ^ (d >> 31),
    ;
    assert(0x94d0_49bb_1331_11ebu64 * 0x3196_42b2_d24d_8ec3u64 == 2077064247507883091
        * 0x1_0000_0000_0000_0000 + 1) by (nonlinear_arith);
    lemma_wrapping_mul_undone(
        c,
        0x94d0_49bb_1331_11eb,
        0x3196_42b2_d24d_8ec3,
        2077064247507883091,
    );
    assert(c ^ (c >> 27) ^ (c >> 54) == b) by (bit_vector)
        requires
            c == b ^ (b >> 27),
    ;
    assert(0xbf58_476d_1ce4_e5b9u64 * 0x96de_1b17_3f11_9089u64 == 8125545580553827436
        * 0x1_0000_0000_0000_0000 + 1) by (nonlinear_arith);
    lemma_wrapping_mul_undone(
        a,
        0xbf58_476d_1ce4_e5b9,
        0x96de_1b17_3f11_9089,
        8125545580553827436,
    );
    assert(a ^ (a >> 30) ^ (a >> 60) == state) by (bit_vector)
        requires
            a == state ^ (state >> 30),
    ;
}

/// No two states go on to the same one, and no two read as the same.
pub proof fn the_generator_is_one_to_one(a: u64, b: u64)
    requires
        a != b,
    ensures
        stepped(a) != stepped(b),
        mixed(a) != mixed(b),
        draw(a, 1) != draw(b, 1),
{
    lemma_unstepped(a);
    lemma_unstepped(b);
    lemma_unmixed(a);
    lemma_unmixed(b);
    lemma_unmixed(stepped(a));
    lemma_unmixed(stepped(b));
    assert(after(a, 0) == a && after(b, 0) == b);
    assert(after(a, 1) == stepped(a) && after(b, 1) == stepped(b));
}

/// One byte of a word, the least significant first.
#[verifier::opaque]
pub open spec fn word_byte(word: u64, i: int) -> u8 {
    ((word >> ((8 * i) as u64)) & 0xff) as u8
}

/// The bytes of an id: eight at a time, so every byte comes from a different
/// part of a well-mixed word.
pub open spec fn id_bytes(state: u64, len: nat) -> Seq<u8> {
    Seq::new(len, |i: int| word_byte(draw(state, (i / 8 + 1) as nat), i % 8))
}

/// How many words an id of `len` bytes takes.
pub open spec fn id_words(len: nat) -> nat {
    (len + 7) / 8
}

/// A new id.
pub fn id<const N: usize>(state: &mut u64) -> (id: Id<N>)
    ensures
        id@ == id_bytes(*old(state), N as nat),
        *final(state) == after(*old(state), id_words(N as nat)),
{
    let ghost start = *state;
    let ghost mut words: nat = 0;
    let mut bytes: Vec<u8> = Vec::new();
    let mut word: u64 = 0;
    // How many bytes of the word have been used.
    let mut used: usize = 8;
    let mut i: usize = 0;
    while i < N
        invariant
            i <= N,
            0 < used <= 8,
            i + 8 == 8 * words + used,
            *state == after(start, words),
            words > 0 ==> word == draw(start, words),
            bytes@.len() == i,
            forall|k: int|
                0 <= k < i ==> #[trigger] bytes@[k] == id_bytes(start, N as nat)[k],
        decreases N - i,
    {
        if used == 8 {
            proof {
                lemma_after(start, words, 1);
                words = words + 1;
            }
            word = next(state);
            used = 0;
        }
        let byte = ((word >> (8 * used) as u64) & 0xff) as u8;
        proof {
            assert(i as int / 8 + 1 == words && i as int % 8 == used);
            assert(byte == word_byte(draw(start, words), used as int)) by {
                reveal(word_byte);
            }
        }
        bytes.push(byte);
        used = used + 1;
        i = i + 1;
    }
    proof {
        let n = N as int;
        assert(words == (n + 7) / 8);
    }
    assert(bytes@ =~= id_bytes(start, N as nat));
    match Id::<N>::from_slice(bytes.as_slice()) {
        Some(id) => id,
        None => vstd::pervasive::unreached(),
    }
}

/// Whether a call asks a store for something.
pub open spec fn is_statement(word: Seq<char>) -> bool {
    word == "SELECT"@ || word == "INSERT"@ || word == "UPDATE"@ || word == "COPY"@
}

/// Whether a call is about a product.
pub open spec fn is_about_product(name: Seq<char>) -> bool {
    ||| contains_text(name, "ProductCatalogService"@)
    ||| contains_text(name, "CartService"@)
    ||| contains_text(name, "RecommendationService"@)
}

/// The tags a caller would actually have set, as a list.
pub open spec fn tag_list(name: Seq<char>, product: (Seq<char>, Seq<char>)) -> Seq<Entry> {
    let word = segments(name, ' ')[0];
    let first: Seq<Entry> = if is_statement(word) {
        seq![("db.system"@, Some("postgresql"@))]
    } else if (word == "POST"@ || word == "GET"@) && contains_text(name, "."@) {
        seq![("http.status_code"@, Some("200"@))]
    } else {
        Seq::empty()
    };
    if is_about_product(name) {
        first + seq![("product.sku"@, Some(product.0)), ("product.name"@, Some(product.1))]
    } else {
        first
    }
}

fn tag(key: &str, value: &str) -> (tag: (String, Option<String>))
    ensures
        crate::types::entry_view(tag) == (key@, Some(value@)),
{
    (String::from_str(key), Some(String::from_str(value)))
}

/// The tags a caller would actually have set. Most spans carry none, which is
/// what the column looks like in practice. The ones that do are the ones worth
/// opening: a query says which engine, a catalogue call says which item.
pub fn tags(name: &str, product: (&str, &str)) -> (tags: Tags)
    ensures
        tags@ == last_values(tag_list(name@, (product.0@, product.1@))),
{
    let words = split(name, ' ');
    proof {
        crate::text::join_undoes_split(name@, ' ');
        assert(str_views(words@).len() == words@.len());
        assert(str_views(words@)[0] == words@[0]@);
    }
    let word = words[0];
    let mut list: Vec<(String, Option<String>)> = Vec::new();
    if same_text(word, "SELECT") || same_text(word, "INSERT") || same_text(word, "UPDATE")
        || same_text(word, "COPY") {
        list.push(tag("db.system", "postgresql"));
    } else if (same_text(word, "POST") || same_text(word, "GET")) && contains(name, ".") {
        list.push(tag("http.status_code", "200"));
    }
    let ghost first = list@;
    if contains(name, "ProductCatalogService") || contains(name, "CartService") || contains(
        name,
        "RecommendationService",
    ) {
        let (sku, title) = product;
        list.push(tag("product.sku", sku));
        list.push(tag("product.name", title));
    }
    assert(entry_views(list@) =~= tag_list(name@, (product.0@, product.1@)));
    Tags::from_iter(list)
}

/// Where the spans of a trace sit, in milliseconds from its start: the root and
/// each call, and how far into each its next call starts.
pub struct Layout {
    pub windows: Seq<(int, int)>,
    pub cursors: Seq<int>,
}

pub open spec fn least(a: int, b: int) -> int {
    if a <= b {
        a
    } else {
        b
    }
}

/// When a call starts: where its parent's next one does, and no later than the
/// parent ends.
pub open spec fn call_start(layout: Layout, step: StepView) -> int {
    least(layout.cursors[step.parent], layout.windows[step.parent].1)
}

/// When a call ends: once it has taken its share of its parent's time, a
/// millisecond at least, and no later than the parent ends.
pub open spec fn call_end(layout: Layout, step: StepView) -> int {
    let (from, to) = layout.windows[step.parent];
    let share = (to - from) * step.share / 100;
    least(
        call_start(layout, step) + (if share > 1 {
            share
        } else {
            1
        }),
        to,
    )
}

/// Where the root and the first `calls` calls of a trace sit.
pub open spec fn layout(steps: Seq<StepView>, total: int, calls: nat) -> Layout
    decreases calls,
{
    if calls == 0 {
        Layout { windows: seq![(0, total)], cursors: seq![total / 40] }
    } else {
        let before = layout(steps, total, (calls - 1) as nat);
        let step = steps[calls - 1];
        let (parent_from, parent_to) = before.windows[step.parent];
        let room = parent_to - parent_from;
        let from = call_start(before, step);
        let to = call_end(before, step);
        Layout {
            windows: before.windows.push((from, to)),
            cursors: before.cursors.push(from + (to - from) / 25).update(
                step.parent,
                least(to + room / 40, parent_to),
            ),
        }
    }
}

/// Whether each call comes after the one that made it.
pub open spec fn calls_nest(steps: Seq<StepView>) -> bool {
    forall|i: int|
        0 <= i < steps.len() ==> 0 <= (#[trigger] steps[i]).parent <= i && 0 <= steps[i].share
            <= 100
}

/// Every shape's calls come after those that made them.
pub proof fn shapes_are_well_formed(index: int)
    requires
        0 <= index < SHAPES,
    ensures
        calls_nest(spec_shape(index).steps),
        1 <= spec_shape(index).steps.len() <= 8,
        70 <= spec_shape(index).millis <= 2600,
{
}

spec fn laid_out(layout: Layout, total: int, calls: nat) -> bool {
    &&& layout.windows.len() == calls + 1
    &&& layout.cursors.len() == calls + 1
    &&& forall|k: int|
        0 <= k <= calls ==> {
            &&& 0 <= (#[trigger] layout.windows[k]).0 <= layout.windows[k].1 <= total
            &&& layout.windows[k].0 <= layout.cursors[k] <= total
        }
}

proof fn lemma_layout(steps: Seq<StepView>, total: int, calls: nat)
    requires
        calls_nest(steps),
        0 <= total,
        calls <= steps.len(),
    ensures
        laid_out(layout(steps, total, calls), total, calls),
    decreases calls,
{
    if calls > 0 {
        let n = (calls - 1) as nat;
        lemma_layout(steps, total, n);
        let before = layout(steps, total, n);
        let after = layout(steps, total, calls);
        let step = steps[n as int];
        let (parent_from, parent_to) = before.windows[step.parent];
        let room = parent_to - parent_from;
        assert(0 <= room * step.share / 100) by (nonlinear_arith)
            requires
                0 <= room,
                0 <= step.share,
        ;
        let from = call_start(before, step);
        let to = call_end(before, step);
        assert(parent_from <= from <= to <= parent_to);
        assert forall|k: int| 0 <= k <= calls implies {
            &&& 0 <= (#[trigger] after.windows[k]).0 <= after.windows[k].1 <= total
            &&& after.windows[k].0 <= after.cursors[k] <= total
        } by {
            if k < calls {
                assert(after.windows[k] == before.windows[k]);
            }
        }
    }
}

/// Nothing outlives the work that spawned it: each call sits inside the one
/// that made it.
pub proof fn nothing_outlives_its_parent(steps: Seq<StepView>, total: int, i: int)
    requires
        calls_nest(steps),
        0 <= total,
        0 <= i < steps.len(),
    ensures
        ({
            let windows = layout(steps, total, steps.len()).windows;
            let (parent_from, parent_to) = windows[steps[i].parent];
            let (from, to) = windows[i + 1];
            0 <= parent_from <= from <= to <= parent_to <= total
        }),
{
    let before = layout(steps, total, i as nat);
    lemma_layout(steps, total, i as nat);
    lemma_layout(steps, total, (i + 1) as nat);
    lemma_windows_stay(steps, total, i as nat, steps.len());
    lemma_windows_stay(steps, total, (i + 1) as nat, steps.len());
    let step = steps[i];
    let (parent_from, parent_to) = before.windows[step.parent];
    let room = parent_to - parent_from;
    assert(0 <= room * step.share / 100) by (nonlinear_arith)
        requires
            0 <= room,
            0 <= step.share,
    ;
    let windows = layout(steps, total, steps.len()).windows;
    assert(windows[step.parent] == before.windows[step.parent]);
    assert(windows[i + 1] == layout(steps, total, (i + 1) as nat).windows[i + 1]);
    assert(windows[i + 1] == (call_start(before, step), call_end(before, step)));
}

proof fn lemma_cursor_is_past(steps: Seq<StepView>, total: int, i: int, calls: nat)
    requires
        calls_nest(steps),
        0 <= total,
        0 <= i < calls <= steps.len(),
    ensures
        ({
            let laid = layout(steps, total, calls);
            laid.windows[i + 1].1 <= laid.cursors[steps[i].parent]
        }),
    decreases calls,
{
    let n = (calls - 1) as nat;
    let before = layout(steps, total, n);
    let step = steps[n as int];
    let parent = steps[i].parent;
    lemma_layout(steps, total, n);
    lemma_layout(steps, total, calls);
    let (parent_from, parent_to) = before.windows[step.parent];
    let room = parent_to - parent_from;
    assert(0 <= room * step.share / 100) by (nonlinear_arith)
        requires
            0 <= room,
            0 <= step.share,
    ;
    if i < n {
        lemma_cursor_is_past(steps, total, i, n);
        nothing_outlives_its_parent(steps, total, i);
        lemma_windows_stay(steps, total, n, steps.len());
        assert(before.windows[i + 1] == layout(steps, total, steps.len()).windows[i + 1]);
        assert(before.windows[parent] == layout(steps, total, steps.len()).windows[parent]);
    }
}

/// Calls made by one span follow one another: the next begins once the one
/// before it has ended.
pub proof fn siblings_never_overlap(steps: Seq<StepView>, total: int, i: int, j: int)
    requires
        calls_nest(steps),
        0 <= total,
        0 <= i < j < steps.len(),
        steps[i].parent == steps[j].parent,
    ensures
        ({
            let windows = layout(steps, total, steps.len()).windows;
            windows[i + 1].1 <= windows[j + 1].0
        }),
{
    let before = layout(steps, total, j as nat);
    let windows = layout(steps, total, steps.len()).windows;
    lemma_layout(steps, total, j as nat);
    lemma_layout(steps, total, (j + 1) as nat);
    lemma_cursor_is_past(steps, total, i, j as nat);
    nothing_outlives_its_parent(steps, total, i);
    lemma_windows_stay(steps, total, j as nat, steps.len());
    lemma_windows_stay(steps, total, (j + 1) as nat, steps.len());
    assert(before.windows[i + 1] == windows[i + 1]);
    assert(before.windows[steps[i].parent] == windows[steps[i].parent]);
    assert(layout(steps, total, (j + 1) as nat).windows[j + 1] == windows[j + 1]);
}

proof fn lemma_windows_stay(steps: Seq<StepView>, total: int, a: nat, b: nat)
    requires
        calls_nest(steps),
        0 <= total,
        a <= b <= steps.len(),
    ensures
        forall|k: int|
            0 <= k <= a ==> #[trigger] layout(steps, total, a).windows[k] == layout(
                steps,
                total,
                b,
            ).windows[k],
    decreases b - a,
{
    if a < b {
        lemma_windows_stay(steps, total, a, (b - 1) as nat);
        lemma_layout(steps, total, (b - 1) as nat);
        lemma_layout(steps, total, a);
    }
}

/// The shape of the trace a state gives.
pub open spec fn trace_shape(state: u64) -> ShapeView {
    spec_shape((draw(state, 1) % SHAPES) as int)
}

/// How long the trace a state gives takes, in milliseconds.
pub open spec fn trace_millis(state: u64) -> int {
    trace_shape(state).millis * (55 + draw(state, 2) % 150) / 100
}

/// Which call of the trace a state gives fails, counted from one: roughly one
/// trace in fourteen fails, in one of its calls.
pub open spec fn failing_call(state: u64) -> Option<int> {
    if draw(state, 5) % 14 == 0 {
        Some(draw(state, 6) as int % trace_shape(state).steps.len() as int + 1)
    } else {
        None
    }
}

/// How many draws are made by the time it is known which call fails.
pub open spec fn head_draws(state: u64) -> nat {
    if failing_call(state) is Some {
        6
    } else {
        5
    }
}

/// How many draws are made before the id of a call. A call that failed draws
/// once more, for why.
pub open spec fn draws_before_call(state: u64, call: int) -> nat {
    (head_draws(state) + 3 + call + (if failing_call(state) is Some && failing_call(state)->Some_0
        <= call {
        1int
    } else {
        0
    })) as nat
}

/// How many draws a trace takes.
pub open spec fn trace_draws(state: u64) -> nat {
    draws_before_call(state, trace_shape(state).steps.len() as int)
}

/// The id of the root of a trace, or of one of its calls counted from one.
pub open spec fn entry_id(state: u64, entry: int) -> Seq<u8> {
    if entry == 0 {
        id_bytes(after(state, head_draws(state) + 2), 8)
    } else {
        id_bytes(after(state, draws_before_call(state, entry - 1)), 8)
    }
}

/// The common part of every span of a trace that arrived at `at`.
pub open spec fn seeded_common(at: int) -> CommonView {
    CommonView { organization_id: "1"@, project_id: "1"@, received_at: at }
}

/// An instant of a trace, `millis` milliseconds from its start.
pub open spec fn trace_instant(state: u64, at: int, millis: int) -> int {
    at - trace_millis(state) * 1_000_000 + millis * 1_000_000
}

/// The root of the trace a state gives. A status of Ok means someone asserted
/// success, which almost nothing does.
pub open spec fn root_span(state: u64, at: int) -> SpanView {
    SpanView {
        common: seeded_common(at),
        span_id: entry_id(state, 0),
        trace_id: id_bytes(after(state, 2), 16),
        parent_span_id: None,
        service: Some(trace_shape(state).service),
        name: trace_shape(state).operation,
        started_at: trace_instant(state, at, 0),
        ended_at: Some(trace_instant(state, at, trace_millis(state))),
        status: if draw(state, head_draws(state) + 1) % 20 == 0 {
            Status::Okay
        } else {
            Status::Unset
        },
        status_message: None,
        tags: Map::empty(),
    }
}

/// One call of the trace a state gives.
pub open spec fn call_span(state: u64, at: int, call: int) -> SpanView {
    let shape = trace_shape(state);
    let step = shape.steps[call];
    let windows = layout(shape.steps, trace_millis(state), shape.steps.len()).windows;
    let failed = failing_call(state) == Some(call + 1);
    SpanView {
        common: seeded_common(at),
        span_id: entry_id(state, call + 1),
        trace_id: id_bytes(after(state, 2), 16),
        parent_span_id: Some(entry_id(state, step.parent)),
        service: Some(step.service),
        name: step.name,
        started_at: trace_instant(state, at, windows[call + 1].0),
        ended_at: Some(trace_instant(state, at, windows[call + 1].1)),
        status: if failed {
            Status::Error
        } else {
            Status::Unset
        },
        status_message: if failed {
            Some(spec_failure((draw(state, draws_before_call(state, call) + 2) % 4) as int))
        } else {
            None
        },
        tags: last_values(
            tag_list(
                step.name,
                spec_product((draw(state, head_draws(state) + 2) % PRODUCTS) as int),
            ),
        ),
    }
}

/// The spans of the trace a state gives: its root, then its calls.
pub open spec fn trace_spans(state: u64, at: int) -> Seq<SpanView> {
    Seq::new(
        trace_shape(state).steps.len() + 1,
        |i: int|
            if i == 0 {
                root_span(state, at)
            } else {
                call_span(state, at, i - 1)
            },
    )
}

fn span(
    at: Timestamp,
    service: &str,
    name: &str,
    span_id: SpanId,
    trace_id: TraceId,
    parent_span_id: Option<SpanId>,
    started_at: Timestamp,
    ended_at: Timestamp,
    status: Status,
    status_message: Option<String>,
    tags: Tags,
) -> (span: Span)
    ensures
        span@ == (SpanView {
            common: seeded_common(at@),
            span_id: span_id@,
            trace_id: trace_id@,
            parent_span_id: crate::spans::option_id_view(parent_span_id),
            service: Some(service@),
            name: name@,
            started_at: started_at@,
            ended_at: Some(ended_at@),
            status,
            status_message: crate::text::option_view(status_message),
            tags: tags@,
        }),
{
    Span {
        common: Common {
            organization_id: String::from_str("1"),
            project_id: String::from_str("1"),
            received_at: at,
        },
        span_id,
        trace_id,
        parent_span_id,
        service: Some(String::from_str(service)),
        name: String::from_str(name),
        started_at,
        ended_at: Some(ended_at),
        status,
        status_message,
        tags,
    }
}

/// A root span and the calls beneath it, each laid out inside its own parent so
/// nothing outlives the work that spawned it.
pub fn trace(state: &mut u64, at: Timestamp) -> (spans: Vec<Span>)
    requires
        in_range(at@ - trace_millis(*old(state)) * 1_000_000),
    ensures
        span_views(spans@) == trace_spans(*old(state), at@),
        *final(state) == after(*old(state), trace_draws(*old(state))),
{
    let ghost start = *state;
    proof {
        assert(after(start, 0) == start);
        shapes_are_well_formed((draw(start, 1) % SHAPES) as int);
    }
    let shape = shape(next(state) % SHAPES);
    let ghost steps = step_views(shape.steps@);
    assert(shape@ == trace_shape(start));
    proof {
        lemma_after(start, 1, 1);
    }
    let pace: i64 = (55 + next(state) % 150) as i64;
    proof {
        let millis = shape.millis as int;
        assert(0 <= millis * pace <= 2600 * 204) by (nonlinear_arith)
            requires
                0 <= millis <= 2600,
                0 <= pace <= 204,
        ;
    }
    let total: i64 = shape.millis * pace / 100;
    assert(total == trace_millis(start));
    proof {
        lemma_after(start, 2, 2);
    }
    let trace_id: TraceId = id::<16>(state);
    let _ = at.seconds();
    let started = at.plus_millis(-total);
    proof {
        lemma_after(start, 4, 1);
    }
    // Roughly one trace in fourteen fails, in one of its calls.
    let failing: Option<u64> = if next(state) % 14 == 0 {
        proof {
            lemma_after(start, 5, 1);
            assert(steps.len() == shape.steps@.len());
        }
        Some(next(state) % shape.steps.len() as u64 + 1)
    } else {
        None
    };
    let ghost head = head_draws(start);
    assert(match failing {
        Some(call) => failing_call(start) == Some(call as int),
        None => failing_call(start) is None,
    });
    assert(*state == after(start, head));
    proof {
        lemma_after(start, head, 1);
    }
    // A status of Ok means someone asserted success, which almost nothing does.
    let root_status = if next(state) % 20 == 0 {
        Status::Okay
    } else {
        Status::Unset
    };
    proof {
        lemma_after(start, head + 1, 1);
    }
    let product = product(next(state) % PRODUCTS);
    proof {
        lemma_after(start, head + 2, 1);
    }
    let root_id: SpanId = id::<8>(state);
    let mut ids: Vec<SpanId> = Vec::new();
    ids.push(root_id);
    // Where each span sits, and how far into each the next child should start.
    let mut windows: Vec<(i64, i64)> = Vec::new();
    windows.push((0, total));
    let mut cursors: Vec<i64> = Vec::new();
    cursors.push(total / 40);
    let mut spans: Vec<Span> = Vec::new();
    let root = span(
        at,
        shape.service,
        shape.operation,
        root_id,
        trace_id,
        None,
        started,
        started.plus_millis(total),
        root_status,
        None,
        Tags::default(),
    );
    assert(root@ == root_span(start, at@));
    spans.push(root);
    let ghost all = trace_spans(start, at@);
    assert(span_views(spans@) =~= all.take(1));
    let mut call: usize = 0;
    while call < shape.steps.len()
        invariant
            steps == step_views(shape.steps@),
            shape@ == trace_shape(start),
            steps == trace_shape(start).steps,
            calls_nest(steps),
            1 <= steps.len() <= 8,
            total == trace_millis(start),
            0 <= total <= 5304,
            in_range(at@),
            in_range(started@),
            started@ == at@ - total * 1_000_000,
            trace_id@ == id_bytes(after(start, 2), 16),
            head == head_draws(start),
            match failing {
                Some(call) => failing_call(start) == Some(call as int),
                None => failing_call(start) is None,
            },
            (product.0@, product.1@) == spec_product(
                (draw(start, head + 2) % PRODUCTS) as int,
            ),
            all == trace_spans(start, at@),
            call <= shape.steps.len(),
            *state == after(start, draws_before_call(start, call as int)),
            ids@.len() == call + 1,
            forall|k: int| 0 <= k <= call ==> (#[trigger] ids@[k])@ == entry_id(start, k),
            windows@.len() == call + 1,
            cursors@.len() == call + 1,
            forall|k: int|
                0 <= k <= call ==> (windows@[k].0 as int, windows@[k].1 as int) == #[trigger] layout(
                    steps,
                    total as int,
                    call as nat,
                ).windows[k],
            forall|k: int|
                0 <= k <= call ==> cursors@[k] == #[trigger] layout(
                    steps,
                    total as int,
                    call as nat,
                ).cursors[k],
            span_views(spans@) == all.take(call + 1),
        decreases shape.steps.len() - call,
    {
        let step = shape.steps[call];
        let ghost before = layout(steps, total as int, call as nat);
        proof {
            assert(steps[call as int] == step@);
            lemma_layout(steps, total as int, call as nat);
            assert(before.windows[step.parent as int] == (
                windows@[step.parent as int].0 as int,
                windows@[step.parent as int].1 as int,
            ));
            assert(before.cursors[step.parent as int] == cursors@[step.parent as int]);
        }
        let (parent_from, parent_to) = windows[step.parent];
        let room: i64 = parent_to - parent_from;
        let cursor: i64 = cursors[step.parent];
        let from: i64 = if cursor <= parent_to {
            cursor
        } else {
            parent_to
        };
        proof {
            assert(0 <= room * step.share <= 5304 * 100) by (nonlinear_arith)
                requires
                    0 <= room <= 5304,
                    0 <= step.share <= 100,
            ;
        }
        let share: i64 = room * step.share as i64 / 100;
        let taken: i64 = if share > 1 {
            share
        } else {
            1
        };
        let to: i64 = if from + taken <= parent_to {
            from + taken
        } else {
            parent_to
        };
        assert(from == call_start(before, step@));
        assert(to == call_end(before, step@));
        let failed = match failing {
            Some(failing) => failing == call as u64 + 1,
            None => false,
        };
        let ghost drawn = draws_before_call(start, call as int);
        proof {
            lemma_after(start, drawn, 1);
        }
        let child: SpanId = id::<8>(state);
        let status = if failed {
            Status::Error
        } else {
            Status::Unset
        };
        let message = if failed {
            proof {
                lemma_after(start, drawn + 1, 1);
            }
            Some(failure(next(state) % 4))
        } else {
            None
        };
        let row = span(
            at,
            step.service,
            step.name,
            child,
            trace_id,
            Some(ids[step.parent]),
            started.plus_millis(from),
            started.plus_millis(to),
            status,
            message,
            tags(step.name, product),
        );
        proof {
            let laid = layout(steps, total as int, (call + 1) as nat);
            lemma_windows_stay(steps, total as int, (call + 1) as nat, steps.len());
            lemma_layout(steps, total as int, (call + 1) as nat);
            assert(laid.windows[call + 1] == (from as int, to as int));
            assert(child@ == entry_id(start, call + 1));
            assert(row@ == call_span(start, at@, call as int));
            assert(row@ == all[call + 1]);
        }
        let ghost held = spans@;
        spans.push(row);
        ids.push(child);
        windows.push((from, to));
        cursors.push(from + (to - from) / 25);
        let later: i64 = if to + room / 40 <= parent_to {
            to + room / 40
        } else {
            parent_to
        };
        cursors.set(step.parent, later);
        call = call + 1;
        proof {
            let laid = layout(steps, total as int, call as nat);
            assert(span_views(spans@) =~= span_views(held).push(row@));
            assert(span_views(spans@) =~= all.take(call + 1));
            assert forall|k: int| 0 <= k <= call implies (
                windows@[k].0 as int,
                windows@[k].1 as int,
            ) == #[trigger] laid.windows[k] by {
                if k < call {
                    assert(laid.windows[k] == before.windows[k]);
                }
            }
            assert forall|k: int| 0 <= k <= call implies cursors@[k] == #[trigger] laid.cursors[k] by {
                if k < call && k != step.parent {
                    assert(laid.cursors[k] == before.cursors[k]);
                }
            }
        }
    }
    assert(all.take(call + 1) =~= all);
    spans
}

/// Each call names an earlier span of its trace as its parent, and runs within
/// it.
pub proof fn a_call_runs_within_its_parent(state: u64, at: int, call: int) -> (parent: int)
    requires
        0 <= call < trace_shape(state).steps.len(),
    ensures
        0 <= parent <= call,
        ({
            let spans = trace_spans(state, at);
            let (outer, inner) = (spans[parent], spans[call + 1]);
            &&& inner.parent_span_id == Some(outer.span_id)
            &&& inner.trace_id == outer.trace_id
            &&& outer.ended_at is Some && inner.ended_at is Some
            &&& outer.started_at <= inner.started_at <= inner.ended_at->Some_0
                <= outer.ended_at->Some_0
        }),
{
    let shape = trace_shape(state);
    let total = trace_millis(state);
    let parent = shape.steps[call].parent;
    shapes_are_well_formed((draw(state, 1) % SHAPES) as int);
    lemma_trace_millis(state);
    nothing_outlives_its_parent(shape.steps, total, call);
    lemma_windows_stay(shape.steps, total, 0, shape.steps.len());
    assert(layout(shape.steps, total, 0).windows[0] == (0int, total));
    parent
}

/// Calls of a trace that one span made follow one another.
pub proof fn calls_of_one_span_follow_one_another(state: u64, at: int, i: int, j: int)
    requires
        0 <= i < j < trace_shape(state).steps.len(),
        trace_shape(state).steps[i].parent == trace_shape(state).steps[j].parent,
    ensures
        ({
            let spans = trace_spans(state, at);
            let (first, second) = (spans[i + 1], spans[j + 1]);
            &&& first.parent_span_id == second.parent_span_id
            &&& first.ended_at is Some
            &&& first.ended_at->Some_0 <= second.started_at
        }),
{
    shapes_are_well_formed((draw(state, 1) % SHAPES) as int);
    lemma_trace_millis(state);
    siblings_never_overlap(trace_shape(state).steps, trace_millis(state), i, j);
}

proof fn lemma_trace_millis(state: u64)
    ensures
        0 <= trace_millis(state) <= 5304,
{
    shapes_are_well_formed((draw(state, 1) % SHAPES) as int);
    let millis = trace_shape(state).millis;
    let pace = 55 + draw(state, 2) % 150;
    assert(0 <= millis * pace <= 2600 * 204) by (nonlinear_arith)
        requires
            0 <= millis <= 2600,
            0 <= pace <= 204,
    ;
}

/// Spans handed over at a time.
pub const BATCH_ROWS: usize = 4_000;

/// Where the generator starts for a seed. Mixed once so neighbouring seeds do
/// not start in neighbouring places.
pub open spec fn seed_state(seed: u64) -> u64 {
    seed.wrapping_mul(0x9e37_79b9_7f4a_7c15) ^ 0x5eed
}

/// When the trace a state gives arrived: within the last `window`
/// milliseconds. Measured back from now, never from midnight, which would put a
/// share of the newest day in the future.
pub open spec fn arrival(state: u64, now: int, window: u64) -> int {
    now - (draw(state, 1) % window) * 1_000_000
}

/// The state of the generator once some traces have been made.
pub open spec fn state_after(state: u64, traces: nat) -> u64
    decreases traces,
{
    if traces == 0 {
        state
    } else {
        let before = state_after(state, (traces - 1) as nat);
        after(after(before, 1), trace_draws(after(before, 1)))
    }
}

/// The spans of some traces, one after another.
pub open spec fn seeded(state: u64, now: int, window: u64, traces: nat) -> Seq<SpanView>
    decreases traces,
{
    if traces == 0 {
        Seq::empty()
    } else {
        let before = state_after(state, (traces - 1) as nat);
        seeded(state, now, window, (traces - 1) as nat) + trace_spans(
            after(before, 1),
            arrival(before, now, window),
        )
    }
}

/// How far back spans can start: as far as the first of them arrived, and the
/// longest trace before that.
pub open spec fn earliest(now: int, window: u64) -> int {
    now - window * 1_000_000 - 5_304_000_000
}

/// Spans across a range of days, in the order they are to be written. Days are
/// interleaved rather than written one after another: a buffer flushes on how
/// many rows it is holding, so writing a day at a time would give a partition a
/// single file and leave compaction nothing to merge.
pub struct Seeder {
    state: u64,
    now: Timestamp,
    window: u64,
    remaining: u64,
    start: Ghost<u64>,
    total: Ghost<u64>,
    made: Ghost<Seq<SpanView>>,
}

impl Seeder {
    /// The state of the generator.
    pub closed spec fn state(&self) -> u64 {
        self.state
    }

    /// What instants are measured back from.
    pub closed spec fn now(&self) -> int {
        self.now@
    }

    /// How far back arrivals go, in milliseconds.
    pub closed spec fn window(&self) -> u64 {
        self.window
    }

    /// How many traces are left to make.
    pub closed spec fn remaining(&self) -> u64 {
        self.remaining
    }

    /// The state the generator started in.
    pub closed spec fn start(&self) -> u64 {
        self.start@
    }

    /// How many traces there are to make in all.
    pub closed spec fn total(&self) -> u64 {
        self.total@
    }

    /// The spans handed over so far, in order.
    pub closed spec fn made(&self) -> Seq<SpanView> {
        self.made@
    }

    #[verifier::type_invariant]
    pub open spec fn reaches(&self) -> bool {
        let traces = (self.total() - self.remaining()) as nat;
        &&& in_range(self.now())
        &&& self.remaining() > 0 ==> self.window() > 0 && in_range(
            earliest(self.now(), self.window()),
        )
        &&& self.remaining() <= self.total()
        &&& self.state() == state_after(self.start(), traces)
        &&& self.made() == seeded(self.start(), self.now(), self.window(), traces)
    }

    /// `per_day` traces for each of the `days` days before `now`.
    pub fn new(now: Timestamp, days: i64, per_day: u64, seed: u64) -> (seeder: Seeder)
        requires
            0 <= days,
            days * 86_400_000 <= i64::MAX,
            days * per_day <= u64::MAX,
            days * per_day > 0 ==> in_range(earliest(now@, (days * 86_400_000) as u64)),
        ensures
            seeder.state() == seed_state(seed),
            seeder.now() == now@,
            seeder.window() == days * 86_400_000,
            seeder.remaining() == days * per_day,
            seeder.start() == seed_state(seed),
            seeder.total() == days * per_day,
            seeder.made() == Seq::<SpanView>::empty(),
    {
        let _ = now.seconds();
        let state: u64 = seed.wrapping_mul(0x9e37_79b9_7f4a_7c15) ^ 0x5eed;
        let window: u64 = (days * 86_400_000) as u64;
        let remaining: u64 = days as u64 * per_day;
        proof {
            if days == 0 {
                assert(0 * per_day == 0) by (nonlinear_arith);
            }
        }
        Seeder {
            state,
            now,
            window,
            remaining,
            start: Ghost(state),
            total: Ghost(remaining),
            made: Ghost(Seq::empty()),
        }
    }

    /// The next spans to hand over: whole traces, until there are enough of
    /// them or none are left to make. None once every trace has been made.
    pub fn next_batch(&mut self) -> (batch: Option<Vec<Span>>)
        ensures
            batch is None <==> old(self).remaining() == 0,
            batch is None ==> *final(self) == *old(self),
            batch matches Some(rows) ==> handed_over(
                *old(self),
                *final(self),
                span_views(rows@),
            ),
            final(self).now() == old(self).now(),
            final(self).window() == old(self).window(),
            final(self).start() == old(self).start(),
            final(self).total() == old(self).total(),
            batch matches Some(rows) ==> final(self).made() == old(self).made() + span_views(
                rows@,
            ),
            batch is None ==> old(self).made() == seeded(
                old(self).start(),
                old(self).now(),
                old(self).window(),
                old(self).total() as nat,
            ),
    {
        proof {
            use_type_invariant(&*self);
        }
        if self.remaining == 0 {
            return None;
        }
        let ghost start = self.state;
        let ghost now = self.now@;
        let ghost window = self.window;
        let ghost given = self.remaining;
        let ghost mut traces: nat = 0;
        let mut state: u64 = self.state;
        let mut rows: Vec<Span> = Vec::new();
        let mut remaining: u64 = self.remaining;
        assert(span_views(rows@) =~= seeded(start, now, window, 0));
        while remaining > 0 && rows.len() < BATCH_ROWS
            invariant
                self.now@ == now,
                self.window == window,
                window > 0,
                in_range(now),
                in_range(earliest(now, window)),
                remaining == given - traces,
                traces <= given,
                given > 0,
                state == state_after(start, traces),
                span_views(rows@) == seeded(start, now, window, traces),
                traces > 0 ==> seeded(start, now, window, (traces - 1) as nat).len() < BATCH_ROWS,
            decreases remaining,
        {
            let ghost before = state;
            assert(after(before, 0) == before);
            let back: u64 = next(&mut state) % self.window;
            assert(back < window);
            proof {
                lemma_trace_millis(state);
            }
            let at = self.now.plus_millis(-(back as i64));
            assert(at@ == arrival(before, now, window));
            let ghost held = rows@;
            let mut more = trace(&mut state, at);
            let ghost made = more@;
            rows.append(&mut more);
            remaining = remaining - 1;
            proof {
                assert(span_views(held).len() == held.len());
                traces = traces + 1;
                assert(span_views(rows@) =~= span_views(held) + span_views(made));
            }
        }
        assert(span_views(rows@).len() == rows@.len());
        assert(traces > 0) by {
            assert(seeded(start, now, window, 0).len() == 0);
        }
        assert((given - remaining) as nat == traces);
        let ghost made = self.made@ + span_views(rows@);
        proof {
            lemma_seeded_on(
                self.start@,
                now,
                window,
                (self.total@ - given) as nat,
                traces,
            );
        }
        *self = Seeder {
            state,
            now: self.now,
            window: self.window,
            remaining,
            start: self.start,
            total: self.total,
            made: Ghost(made),
        };
        Some(rows)
    }
}

/// Whether some rows are those of the traces that are left no longer, and these
/// no more than it takes to have enough rows.
pub open spec fn handed_over(before: Seeder, after: Seeder, rows: Seq<SpanView>) -> bool {
    let traces = (before.remaining() - after.remaining()) as nat;
    &&& after.remaining() < before.remaining()
    &&& after.state() == state_after(before.state(), traces)
    &&& rows == seeded(before.state(), before.now(), before.window(), traces)
    &&& rows.len() >= BATCH_ROWS || after.remaining() == 0
    &&& seeded(before.state(), before.now(), before.window(), (traces - 1) as nat).len()
        < BATCH_ROWS
}

proof fn lemma_seeded_on(state: u64, now: int, window: u64, a: nat, b: nat)
    ensures
        state_after(state_after(state, a), b) == state_after(state, a + b),
        seeded(state, now, window, a) + seeded(state_after(state, a), now, window, b) == seeded(
            state,
            now,
            window,
            a + b,
        ),
    decreases b,
{
    let rest = seeded(state_after(state, a), now, window, b);
    if b > 0 {
        let n = (b - 1) as nat;
        lemma_seeded_on(state, now, window, a, n);
        let before = state_after(state, a + n);
        let last = trace_spans(after(before, 1), arrival(before, now, window));
        assert(rest == seeded(state_after(state, a), now, window, n) + last);
        assert((a + b - 1) as nat == a + n);
        assert(seeded(state, now, window, a + b) == seeded(state, now, window, a + n) + last);
    }
    assert(seeded(state, now, window, a) + rest =~= seeded(state, now, window, a + b));
}

/// Two runs of the same traces from the same state, measured back from the same
/// instant, hand over the same spans in the same order.
pub proof fn seeding_twice_gives_the_same_spans(a: Seeder, b: Seeder)
    requires
        a.reaches(),
        b.reaches(),
        a.remaining() == 0,
        b.remaining() == 0,
        a.start() == b.start(),
        a.now() == b.now(),
        a.window() == b.window(),
        a.total() == b.total(),
    ensures
        a.made() == b.made(),
{
}

/// How many of some spans are roots.
pub open spec fn roots(spans: Seq<SpanView>) -> nat
    decreases spans.len(),
{
    if spans.len() == 0 {
        0
    } else {
        roots(spans.drop_last()) + (if spans.last().parent_span_id is None {
            1nat
        } else {
            0
        })
    }
}

proof fn lemma_roots_of_both(a: Seq<SpanView>, b: Seq<SpanView>)
    ensures
        roots(a + b) == roots(a) + roots(b),
    decreases b.len(),
{
    if b.len() == 0 {
        assert(a + b =~= a);
    } else {
        lemma_roots_of_both(a, b.drop_last());
        assert((a + b).drop_last() =~= a + b.drop_last());
    }
}

proof fn lemma_roots_of_trace(state: u64, at: int, n: int)
    requires
        1 <= n <= trace_spans(state, at).len(),
    ensures
        roots(trace_spans(state, at).take(n)) == 1,
    decreases n,
{
    let spans = trace_spans(state, at);
    assert(spans.take(n).drop_last() =~= spans.take(n - 1));
    if n > 1 {
        lemma_roots_of_trace(state, at, n - 1);
    } else {
        assert(roots(spans.take(0)) == 0);
    }
}

/// A run makes as many traces as were asked for, each with one root, and none
/// where none were.
pub proof fn every_trace_is_seeded(state: u64, now: int, window: u64, traces: nat)
    ensures
        roots(seeded(state, now, window, traces)) == traces,
        traces == 0 <==> seeded(state, now, window, traces).len() == 0,
    decreases traces,
{
    if traces > 0 {
        let n = (traces - 1) as nat;
        let before = state_after(state, n);
        let last = trace_spans(after(before, 1), arrival(before, now, window));
        every_trace_is_seeded(state, now, window, n);
        lemma_roots_of_trace(after(before, 1), arrival(before, now, window), last.len() as int);
        assert(last.take(last.len() as int) =~= last);
        lemma_roots_of_both(seeded(state, now, window, n), last);
    }
}

/// Seeds that differ start the generator in different states.
pub proof fn different_seeds_start_apart(a: u64, b: u64)
    requires
        a != b,
    ensures
        seed_state(a) != seed_state(b),
{
    assert(0x9e37_79b9_7f4a_7c15u64 * 0xf1de_83e1_9937_733du64 == 10771413168148108919
        * 0x1_0000_0000_0000_0000 + 1) by (nonlinear_arith);
    lemma_wrapping_mul_undone(
        a,
        0x9e37_79b9_7f4a_7c15,
        0xf1de_83e1_9937_733d,
        10771413168148108919,
    );
    lemma_wrapping_mul_undone(
        b,
        0x9e37_79b9_7f4a_7c15,
        0xf1de_83e1_9937_733d,
        10771413168148108919,
    );
    let x = a.wrapping_mul(0x9e37_79b9_7f4a_7c15);
    let y = b.wrapping_mul(0x9e37_79b9_7f4a_7c15);
    assert(x != y);
    assert(x != y ==> x ^ 0x5eed != y ^ 0x5eed) by (bit_vector);
}

/// No span seeded starts or ends after it arrived, so none does after now.
pub proof fn nothing_seeded_is_in_the_future(
    state: u64,
    now: int,
    window: u64,
    traces: nat,
    i: int,
)
    requires
        window > 0,
        0 <= i < seeded(state, now, window, traces).len(),
    ensures
        ({
            let span = seeded(state, now, window, traces)[i];
            &&& span.ended_at is Some
            &&& span.started_at <= span.ended_at->Some_0 <= span.common.received_at <= now
        }),
    decreases traces,
{
    if traces > 0 {
        let n = (traces - 1) as nat;
        let earlier = seeded(state, now, window, n);
        if i < earlier.len() {
            nothing_seeded_is_in_the_future(state, now, window, n, i);
        } else {
            let before = state_after(state, n);
            let start = after(before, 1);
            let at = arrival(before, now, window);
            let k = i - earlier.len();
            let shape = trace_shape(start);
            assert(seeded(state, now, window, traces)[i] == trace_spans(start, at)[k]);
            lemma_trace_millis(start);
            shapes_are_well_formed((draw(start, 1) % SHAPES) as int);
            if k > 0 {
                nothing_outlives_its_parent(shape.steps, trace_millis(start), k - 1);
            }
        }
    }
}

/// Every span seeded arrived within the window: no partition it fills is in
/// the future, or further back than asked for.
pub proof fn seeded_spans_arrive_within_the_window(
    state: u64,
    now: int,
    window: u64,
    traces: nat,
    i: int,
)
    requires
        window > 0,
        0 <= i < seeded(state, now, window, traces).len(),
    ensures
        ({
            let at = seeded(state, now, window, traces)[i].common.received_at;
            now - window * 1_000_000 < at <= now
        }),
    decreases traces,
{
    if traces > 0 {
        let earlier = seeded(state, now, window, (traces - 1) as nat);
        if i < earlier.len() {
            seeded_spans_arrive_within_the_window(state, now, window, (traces - 1) as nat, i);
        } else {
            let before = state_after(state, (traces - 1) as nat);
            let at = arrival(before, now, window);
            assert(seeded(state, now, window, traces)[i] == trace_spans(after(before, 1), at)[i
                - earlier.len()]);
            assert(draw(before, 1) % window < window);
        }
    }
}

/// One trace in fourteen fails, in one of its calls, and no other does: that
/// call alone is an error, and it alone says why. Nothing but a root is ever
/// said to have gone well, one in twenty of them.
pub proof fn at_most_one_call_of_a_trace_fails(state: u64, at: int, i: int)
    requires
        0 <= i < trace_spans(state, at).len(),
    ensures
        ({
            let span = trace_spans(state, at)[i];
            let calls = trace_spans(state, at).len() - 1;
            let fails = draw(state, 5) % 14 == 0;
            let heads: nat = if fails {
                6
            } else {
                5
            };
            &&& span.status == Status::Error <==> fails && i == draw(state, 6) as int % calls + 1
            &&& span.status_message is Some <==> span.status == Status::Error
            &&& span.status_message matches Some(message) ==> {
                let why = draw(state, (i + 10) as nat) % 4;
                &&& why == 0 ==> message == "upstream timeout"@
                &&& why == 1 ==> message == "connection reset"@
                &&& why == 2 ==> message == "deadline exceeded"@
                &&& why == 3 ==> message == "429 rate limited"@
            }
            &&& span.status == Status::Okay <==> i == 0 && draw(state, heads + 1) % 20 == 0
        }),
{
    shapes_are_well_formed((draw(state, 1) % SHAPES) as int);
    let calls = trace_shape(state).steps.len() as int;
    assert(0 <= draw(state, 6) as int % calls < calls);
}

/// A trace is a root and a span for each call of its shape, in order, each
/// named as the shape names it and made by the span the shape says. All of them
/// have one trace id and arrived together, the moment the root ended.
pub proof fn a_trace_follows_its_shape(state: u64, at: int, i: int)
    requires
        0 <= i < trace_spans(state, at).len(),
    ensures
        ({
            let spans = trace_spans(state, at);
            let shape = spec_shape((draw(state, 1) % 8) as int);
            let span = spans[i];
            &&& spans.len() == shape.steps.len() + 1
            &&& span.trace_id == spans[0].trace_id
            &&& span.trace_id.len() == 16
            &&& span.span_id.len() == 8
            &&& span.common.organization_id == "1"@
            &&& span.common.project_id == "1"@
            &&& span.common.received_at == at
            &&& i == 0 ==> {
                &&& span.parent_span_id is None
                &&& span.service == Some(shape.service)
                &&& span.name == shape.operation
                &&& span.ended_at == Some(at)
                &&& span.started_at == at - shape.millis * (55 + draw(state, 2) % 150) / 100
                    * 1_000_000
                &&& span.tags == Map::<Seq<char>, Option<Seq<char>>>::empty()
            }
            &&& i > 0 ==> {
                let step = shape.steps[i - 1];
                &&& 0 <= step.parent < i
                &&& span.parent_span_id == Some(spans[step.parent].span_id)
                &&& span.service == Some(step.service)
                &&& span.name == step.name
            }
        }),
{
    shapes_are_well_formed((draw(state, 1) % SHAPES) as int);
    if i > 0 {
        let parent = a_call_runs_within_its_parent(state, at, i - 1);
        let step = trace_shape(state).steps[i - 1];
        assert(0 <= step.parent <= i - 1);
    }
}

proof fn lemma_call_window(steps: Seq<StepView>, total: int, i: int)
    requires
        calls_nest(steps),
        0 <= total,
        0 <= i < steps.len(),
    ensures
        ({
            let windows = layout(steps, total, steps.len()).windows;
            let (parent_from, parent_to) = windows[steps[i].parent];
            let (from, to) = windows[i + 1];
            let share = (parent_to - parent_from) * steps[i].share / 100;
            to == least(
                from + (if share > 1 {
                    share
                } else {
                    1
                }),
                parent_to,
            )
        }),
{
    let before = layout(steps, total, i as nat);
    lemma_layout(steps, total, i as nat);
    lemma_layout(steps, total, (i + 1) as nat);
    lemma_windows_stay(steps, total, i as nat, steps.len());
    lemma_windows_stay(steps, total, (i + 1) as nat, steps.len());
    let step = steps[i];
    let windows = layout(steps, total, steps.len()).windows;
    assert(windows[step.parent] == before.windows[step.parent]);
    assert(windows[i + 1] == layout(steps, total, (i + 1) as nat).windows[i + 1]);
    assert(windows[i + 1] == (call_start(before, step), call_end(before, step)));
}

/// A call takes its share of the time of the span that made it, to the
/// millisecond and no less than one, unless that span ends first: then it ends
/// with it.
pub proof fn a_call_takes_its_share(state: u64, at: int, call: int)
    requires
        0 <= call < trace_shape(state).steps.len(),
    ensures
        ({
            let step = trace_shape(state).steps[call];
            let outer = trace_spans(state, at)[step.parent];
            let inner = trace_spans(state, at)[call + 1];
            let end = outer.ended_at->Some_0;
            let room = (end - outer.started_at) / 1_000_000;
            let share = room * step.share / 100;
            let millis = if share > 1 {
                share
            } else {
                1
            };
            &&& inner.ended_at == Some(end) || inner.ended_at == Some(
                inner.started_at + millis * 1_000_000,
            )
            &&& inner.ended_at->Some_0 <= end
            &&& inner.ended_at->Some_0 <= inner.started_at + millis * 1_000_000
        }),
{
    let shape = trace_shape(state);
    let total = trace_millis(state);
    shapes_are_well_formed((draw(state, 1) % SHAPES) as int);
    lemma_trace_millis(state);
    lemma_call_window(shape.steps, total, call);
    nothing_outlives_its_parent(shape.steps, total, call);
    lemma_windows_stay(shape.steps, total, 0, shape.steps.len());
    assert(layout(shape.steps, total, 0).windows[0] == (0int, total));
    let step = shape.steps[call];
    let windows = layout(shape.steps, total, shape.steps.len()).windows;
    let (parent_from, parent_to) = windows[step.parent];
    let outer = trace_spans(state, at)[step.parent];
    assert(outer.started_at == trace_instant(state, at, parent_from));
    assert(outer.ended_at == Some(trace_instant(state, at, parent_to)));
    assert((parent_to * 1_000_000 - parent_from * 1_000_000) / 1_000_000 == parent_to
        - parent_from);
}

/// The tags of a call say what it is about. A statement to a database says
/// which, by its first word; a request for a file says how it was answered; and
/// a call to a service that deals in products says which product.
pub proof fn a_call_is_tagged_by_what_it_does(
    name: Seq<char>,
    rest: Seq<char>,
    product: (Seq<char>, Seq<char>),
)
    ensures
        ({
            let tags = last_values(tag_list(name, product));
            let deals = contains_text(name, "ProductCatalogService"@) || contains_text(
                name,
                "CartService"@,
            ) || contains_text(name, "RecommendationService"@);
            let asks = name == "SELECT"@ + seq![' '] + rest || name == "INSERT"@ + seq![' '] + rest
                || name == "UPDATE"@ + seq![' '] + rest || name == "COPY"@ + seq![' '] + rest;
            let fetches = name == "GET"@ + seq![' '] + rest || name == "POST"@ + seq![' '] + rest;
            &&& deals <==> tags.contains_key("product.sku"@)
            &&& deals <==> tags.contains_key("product.name"@)
            &&& deals ==> tags["product.sku"@] == Some(product.0)
            &&& deals ==> tags["product.name"@] == Some(product.1)
            &&& asks ==> tags.contains_key("db.system"@) && tags["db.system"@] == Some(
                "postgresql"@,
            )
            &&& fetches && contains_text(name, "."@) ==> tags.contains_key("http.status_code"@)
                && tags["http.status_code"@] == Some("200"@)
            &&& fetches && !contains_text(name, "."@) ==> !tags.contains_key("http.status_code"@)
            &&& fetches ==> !tags.contains_key("db.system"@)
            &&& asks ==> !tags.contains_key("http.status_code"@)
        }),
{
    reveal_strlit("product.sku");
    reveal_strlit("product.name");
    reveal_strlit("db.system");
    reveal_strlit("http.status_code");
    assert("product.sku"@.len() == 11 && "product.name"@.len() == 12);
    assert("db.system"@.len() == 9 && "http.status_code"@.len() == 16);
    reveal_strlit("SELECT");
    reveal_strlit("INSERT");
    reveal_strlit("UPDATE");
    reveal_strlit("COPY");
    reveal_strlit("GET");
    reveal_strlit("POST");
    assert("SELECT"@.len() == 6 && "INSERT"@.len() == 6 && "UPDATE"@.len() == 6);
    assert("GET"@.len() == 3 && "COPY"@.len() == 4 && "POST"@.len() == 4);
    assert("COPY"@[0] == 'C' && "POST"@[0] == 'P');
    lemma_first_word("SELECT"@, rest);
    lemma_first_word("INSERT"@, rest);
    lemma_first_word("UPDATE"@, rest);
    lemma_first_word("COPY"@, rest);
    lemma_first_word("GET"@, rest);
    lemma_first_word("POST"@, rest);
    let list = tag_list(name, product);
    lemma_values_of_few(list);
}

proof fn lemma_values_of_few(list: Seq<Entry>)
    requires
        list.len() <= 3,
    ensures
        list.len() == 0 ==> last_values(list) == Map::<Seq<char>, Option<Seq<char>>>::empty(),
        list.len() == 1 ==> last_values(list) == Map::<
            Seq<char>,
            Option<Seq<char>>,
        >::empty().insert(list[0].0, list[0].1),
        list.len() == 2 ==> last_values(list) == Map::<
            Seq<char>,
            Option<Seq<char>>,
        >::empty().insert(list[0].0, list[0].1).insert(list[1].0, list[1].1),
        list.len() == 3 ==> last_values(list) == Map::<
            Seq<char>,
            Option<Seq<char>>,
        >::empty().insert(list[0].0, list[0].1).insert(list[1].0, list[1].1).insert(
            list[2].0,
            list[2].1,
        ),
{
    reveal_with_fuel(last_values, 4);
}

proof fn lemma_first_word(word: Seq<char>, rest: Seq<char>)
    ensures
        !word.contains(' ') ==> segments(word + seq![' '] + rest, ' ')[0] == word,
{
    if !word.contains(' ') {
        let text = word + seq![' '] + rest;
        assert forall|k: int| 0 <= k < word.len() implies #[trigger] text[k] != ' ' by {
            assert(text[k] == word[k]);
            assert(word.contains(word[k]));
        }
        crate::text::lemma_first_index(text, ' ', word.len() as int);
        assert(text.take(word.len() as int) =~= word);
    }
}

/// Asking for one trace more gives the same spans as before and then those of
/// one more trace, which arrived a whole number of milliseconds ago, fewer than
/// the window has.
pub proof fn one_trace_more_comes_behind_the_others(
    state: u64,
    now: int,
    window: u64,
    traces: nat,
)
    requires
        window > 0,
    ensures
        ({
            let reached = state_after(state, traces);
            let back = draw(reached, 1) as int % window as int;
            &&& 0 <= back < window
            &&& seeded(state, now, window, traces + 1) == seeded(state, now, window, traces)
                + trace_spans(after(reached, 1), now - back * 1_000_000)
        }),
{
    let reached = state_after(state, traces);
    assert(draw(reached, 1) % window == draw(reached, 1) as int % window as int);
}

/// Ids made in different states of the generator differ: an id tells the whole
/// of the word it is made of.
pub proof fn ids_of_different_states_differ(a: u64, b: u64)
    requires
        a != b,
    ensures
        id_bytes(a, 8) != id_bytes(b, 8),
        id_bytes(a, 16) != id_bytes(b, 16),
        id_bytes(a, 8).len() == 8,
        id_bytes(a, 16).len() == 16,
{
    the_generator_is_one_to_one(a, b);
    let x = draw(a, 1);
    let y = draw(b, 1);
    if forall|i: int| 0 <= i < 8 ==> #[trigger] word_byte(x, i) == word_byte(y, i) {
        assert(word_byte(x, 0) == word_byte(y, 0));
        assert(word_byte(x, 1) == word_byte(y, 1));
        assert(word_byte(x, 2) == word_byte(y, 2));
        assert(word_byte(x, 3) == word_byte(y, 3));
        assert(word_byte(x, 4) == word_byte(y, 4));
        assert(word_byte(x, 5) == word_byte(y, 5));
        assert(word_byte(x, 6) == word_byte(y, 6));
        assert(word_byte(x, 7) == word_byte(y, 7));
        reveal(word_byte);
        assert(x == y) by (bit_vector)
            requires
                (((x >> 0u64) & 0xff) as u8) == (((y >> 0u64) & 0xff) as u8),
                (((x >> 8u64) & 0xff) as u8) == (((y >> 8u64) & 0xff) as u8),
                (((x >> 16u64) & 0xff) as u8) == (((y >> 16u64) & 0xff) as u8),
                (((x >> 24u64) & 0xff) as u8) == (((y >> 24u64) & 0xff) as u8),
                (((x >> 32u64) & 0xff) as u8) == (((y >> 32u64) & 0xff) as u8),
                (((x >> 40u64) & 0xff) as u8) == (((y >> 40u64) & 0xff) as u8),
                (((x >> 48u64) & 0xff) as u8) == (((y >> 48u64) & 0xff) as u8),
                (((x >> 56u64) & 0xff) as u8) == (((y >> 56u64) & 0xff) as u8),
        ;
    }
    let i = choose|i: int| 0 <= i < 8 && #[trigger] word_byte(x, i) != word_byte(y, i);
    assert(id_bytes(a, 8)[i] == word_byte(x, i) && id_bytes(b, 8)[i] == word_byte(y, i));
    assert(id_bytes(a, 16)[i] == word_byte(x, i) && id_bytes(b, 16)[i] == word_byte(y, i));
}

/// Whether a shape is the one of an operation: the service and the time the
/// operation takes, and for each call its service, its name, the share of its
/// caller's time it takes and the entry that makes it.
pub open spec fn is_shape(
    shape: ShapeView,
    service: Seq<char>,
    operation: Seq<char>,
    millis: int,
    calls: Seq<(Seq<char>, Seq<char>, int, int)>,
) -> bool {
    &&& shape.service == service
    &&& shape.operation == operation
    &&& shape.millis == millis
    &&& shape.steps.len() == calls.len()
    &&& forall|i: int|
        0 <= i < calls.len() ==> {
            let call = #[trigger] calls[i];
            &&& shape.steps[i].service == call.0
            &&& shape.steps[i].name == call.1
            &&& shape.steps[i].share == call.2
            &&& shape.steps[i].parent == call.3
        }
}

/// What each operation of the shop is made of.
pub proof fn each_operation_has_its_calls(index: int)
    requires
        0 <= index < 8,
    ensures
        index == 0 ==> is_shape(
            spec_shape(index),
            "frontend"@,
            "GET /api/products"@,
            180,
            seq![
                ("product-catalog"@, "oteldemo.ProductCatalogService/ListProducts"@, 74, 0),
                ("product-catalog"@, "SELECT products"@, 68, 1),
                ("ad"@, "oteldemo.AdService/GetAds"@, 21, 0),
            ],
        ),
        index == 1 ==> is_shape(
            spec_shape(index),
            "frontend"@,
            "POST /api/cart"@,
            240,
            seq![
                ("product-catalog"@, "oteldemo.ProductCatalogService/GetProduct"@, 26, 0),
                ("cart"@, "oteldemo.CartService/AddItem"@, 58, 0),
                ("cart"@, "HSET cart"@, 61, 2),
            ],
        ),
        index == 2 ==> is_shape(
            spec_shape(index),
            "frontend"@,
            "POST /api/checkout"@,
            1450,
            seq![
                ("cart"@, "oteldemo.CartService/GetCart"@, 8, 0),
                ("cart"@, "HGET cart"@, 55, 1),
                ("currency"@, "oteldemo.CurrencyService/Convert"@, 5, 0),
                ("checkout"@, "oteldemo.CheckoutService/PlaceOrder"@, 71, 0),
                ("payment"@, "oteldemo.PaymentService/Charge"@, 44, 4),
                ("shipping"@, "oteldemo.ShippingService/ShipOrder"@, 19, 4),
                ("email"@, "oteldemo.EmailService/SendOrderConfirmation"@, 12, 4),
                ("accounting"@, "consume order"@, 6, 0),
            ],
        ),
        index == 3 ==> is_shape(
            spec_shape(index),
            "frontend"@,
            "GET /api/recommendations"@,
            320,
            seq![
                ("recommendation"@, "oteldemo.RecommendationService/ListRecommendations"@, 68, 0),
                ("product-catalog"@, "oteldemo.ProductCatalogService/ListProducts"@, 47, 1),
            ],
        ),
        index == 4 ==> is_shape(
            spec_shape(index),
            "frontend"@,
            "GET /api/data"@,
            95,
            seq![
                ("ad"@, "oteldemo.AdService/GetAds"@, 72, 0),
            ],
        ),
        index == 5 ==> is_shape(
            spec_shape(index),
            "frontend"@,
            "POST /api/currency"@,
            70,
            seq![
                ("currency"@, "oteldemo.CurrencyService/Convert"@, 61, 0),
            ],
        ),
        index == 6 ==> is_shape(
            spec_shape(index),
            "frontend"@,
            "GET /api/shipping"@,
            210,
            seq![
                ("quote"@, "oteldemo.QuoteService/GetQuote"@, 63, 0),
                ("shipping"@, "oteldemo.ShippingService/GetQuote"@, 44, 1),
            ],
        ),
        index == 7 ==> is_shape(
            spec_shape(index),
            "load-generator"@,
            "browser_checkout"@,
            2600,
            seq![
                ("frontend"@, "GET /api/cart"@, 11, 0),
                ("cart"@, "oteldemo.CartService/GetCart"@, 57, 1),
                ("frontend"@, "POST /api/checkout"@, 74, 0),
                ("checkout"@, "oteldemo.CheckoutService/PlaceOrder"@, 82, 3),
                ("payment"@, "oteldemo.PaymentService/Charge"@, 37, 4),
            ],
        ),
{
}

/// No two products go by one code, and every code has ten characters.
pub proof fn products_are_told_apart(a: int, b: int)
    requires
        0 <= a < b < 10,
    ensures
        spec_product(a).0 != spec_product(b).0,
        spec_product(a).0.len() == 10,
        spec_product(b).0.len() == 10,
{
    reveal_strlit("OLJCESPC7Z");
    reveal_strlit("66VCHSJNUP");
    reveal_strlit("1YMWWN1N4O");
    reveal_strlit("L9ECAV7KIM");
    reveal_strlit("2ZYFJ3GM2N");
    reveal_strlit("0PUK6V6EV0");
    reveal_strlit("HQTGWGPNH4");
    reveal_strlit("9SIQT8TOJO");
    reveal_strlit("6E92ZMYYFZ");
    reveal_strlit("LS4PSXUNUM");
    let x = spec_product(a).0;
    let y = spec_product(b).0;
    assert(x[0] != y[0] || x[1] != y[1]);
}

/// The calls of a trace are about one product: whichever of them say which,
/// say the same one.
pub proof fn calls_of_a_trace_are_about_one_product(state: u64, at: int, i: int) -> (product: int)
    requires
        0 <= i < trace_shape(state).steps.len(),
    ensures
        product == draw(state, if draw(state, 5) % 14 == 0 {
            8
        } else {
            7
        }) as int % 10,
        trace_spans(state, at)[i + 1].tags == last_values(
            tag_list(trace_shape(state).steps[i].name, spec_product(product)),
        ),
{
    (draw(state, head_draws(state) + 2) % PRODUCTS) as int
}

/// Where the next call of an entry starts, once some calls have been laid out:
/// a little into it before its first call, and a little behind the last.
spec fn next_call_starts(
    windows: Seq<(int, int)>,
    steps: Seq<StepView>,
    entry: int,
    calls: nat,
) -> int
    decreases calls,
{
    let (from, to) = windows[entry];
    if calls == 0 {
        from + (to - from) / (if entry == 0 {
            40int
        } else {
            25
        })
    } else if steps[calls - 1].parent == entry {
        least(windows[calls as int].1 + (to - from) / 40, to)
    } else {
        next_call_starts(windows, steps, entry, (calls - 1) as nat)
    }
}

proof fn lemma_next_call_starts(steps: Seq<StepView>, total: int, entry: int, calls: nat)
    requires
        calls_nest(steps),
        0 <= total,
        calls <= steps.len(),
        0 <= entry <= calls,
    ensures
        layout(steps, total, calls).cursors[entry] == next_call_starts(
            layout(steps, total, steps.len()).windows,
            steps,
            entry,
            calls,
        ),
    decreases calls,
{
    let windows = layout(steps, total, steps.len()).windows;
    lemma_windows_stay(steps, total, calls, steps.len());
    lemma_layout(steps, total, calls);
    assert(layout(steps, total, calls).windows[entry] == windows[entry]);
    if calls > 0 {
        let n = (calls - 1) as nat;
        let step = steps[n as int];
        let before = layout(steps, total, n);
        lemma_layout(steps, total, n);
        lemma_windows_stay(steps, total, n, steps.len());
        assert(before.windows[step.parent] == windows[step.parent]);
        assert(layout(steps, total, calls).windows[calls as int] == windows[calls as int]);
        if entry < calls {
            lemma_next_call_starts(steps, total, entry, n);
        } else {
            lemma_no_calls_yet(windows, steps, entry, n);
        }
    }
}

proof fn lemma_no_calls_yet(windows: Seq<(int, int)>, steps: Seq<StepView>, entry: int, calls: nat)
    requires
        calls_nest(steps),
        calls <= steps.len(),
        forall|k: int| 0 <= k < calls ==> (#[trigger] steps[k]).parent != entry,
    ensures
        next_call_starts(windows, steps, entry, calls) == next_call_starts(
            windows,
            steps,
            entry,
            0,
        ),
    decreases calls,
{
    if calls > 0 {
        lemma_no_calls_yet(windows, steps, entry, (calls - 1) as nat);
    }
}

/// The first call a span makes starts a little into it: a fortieth of its time
/// where the span is the root, a twenty-fifth where it is a call itself.
pub proof fn a_first_call_starts_a_little_in(steps: Seq<StepView>, total: int, i: int)
    requires
        calls_nest(steps),
        0 <= total,
        0 <= i < steps.len(),
        forall|k: int| 0 <= k < i ==> (#[trigger] steps[k]).parent != steps[i].parent,
    ensures
        ({
            let windows = layout(steps, total, steps.len()).windows;
            let (parent_from, parent_to) = windows[steps[i].parent];
            let room = parent_to - parent_from;
            &&& steps[i].parent == 0 ==> windows[i + 1].0 == parent_from + room / 40
            &&& steps[i].parent > 0 ==> windows[i + 1].0 == parent_from + room / 25
        }),
{
    let windows = layout(steps, total, steps.len()).windows;
    let parent = steps[i].parent;
    lemma_windows_stay(steps, total, i as nat, steps.len());
    lemma_windows_stay(steps, total, (i + 1) as nat, steps.len());
    lemma_layout(steps, total, i as nat);
    lemma_layout(steps, total, (i + 1) as nat);
    lemma_next_call_starts(steps, total, parent, i as nat);
    lemma_no_calls_yet(windows, steps, parent, i as nat);
    let before = layout(steps, total, i as nat);
    assert(before.windows[parent] == windows[parent]);
    assert(layout(steps, total, (i + 1) as nat).windows[i + 1] == windows[i + 1]);
}

/// A call starts a fortieth of its caller's time behind the end of the call
/// made before it, or with the end of the caller where that comes first.
pub proof fn the_next_call_starts_a_little_behind(
    steps: Seq<StepView>,
    total: int,
    i: int,
    j: int,
)
    requires
        calls_nest(steps),
        0 <= total,
        0 <= i < j < steps.len(),
        steps[i].parent == steps[j].parent,
        forall|k: int| i < k < j ==> (#[trigger] steps[k]).parent != steps[j].parent,
    ensures
        ({
            let windows = layout(steps, total, steps.len()).windows;
            let (parent_from, parent_to) = windows[steps[j].parent];
            let behind = windows[i + 1].1 + (parent_to - parent_from) / 40;
            &&& windows[j + 1].0 == behind || windows[j + 1].0 == parent_to
            &&& windows[j + 1].0 <= behind
            &&& windows[j + 1].0 <= parent_to
        }),
{
    let windows = layout(steps, total, steps.len()).windows;
    let parent = steps[j].parent;
    lemma_windows_stay(steps, total, j as nat, steps.len());
    lemma_windows_stay(steps, total, (j + 1) as nat, steps.len());
    lemma_layout(steps, total, j as nat);
    lemma_layout(steps, total, (j + 1) as nat);
    lemma_next_call_starts(steps, total, parent, j as nat);
    lemma_last_call(windows, steps, parent, i, j as nat);
    let before = layout(steps, total, j as nat);
    assert(before.windows[parent] == windows[parent]);
    assert(layout(steps, total, (j + 1) as nat).windows[j + 1] == windows[j + 1]);
}

proof fn lemma_last_call(
    windows: Seq<(int, int)>,
    steps: Seq<StepView>,
    entry: int,
    i: int,
    calls: nat,
)
    requires
        0 <= i < calls <= steps.len(),
        steps[i].parent == entry,
        forall|k: int| i < k < calls ==> (#[trigger] steps[k]).parent != entry,
    ensures
        next_call_starts(windows, steps, entry, calls) == least(
            windows[i + 1].1 + (windows[entry].1 - windows[entry].0) / 40,
            windows[entry].1,
        ),
    decreases calls,
{
    if calls - 1 > i {
        lemma_last_call(windows, steps, entry, i, (calls - 1) as nat);
    }
}

/// A batch is whole traces, four thousand spans of them or all that are left,
/// and no trace more than it takes.
pub proof fn a_batch_is_no_more_than_enough(before: Seeder, after: Seeder, rows: Seq<SpanView>)
    requires
        handed_over(before, after, rows),
    ensures
        rows.len() >= 4_000 || after.remaining() == 0,
        rows.len() < 4_009,
        roots(rows) == before.remaining() - after.remaining(),
        roots(rows) > 0,
{
    let traces = (before.remaining() - after.remaining()) as nat;
    let reached = state_after(before.state(), (traces - 1) as nat);
    every_trace_is_seeded(before.state(), before.now(), before.window(), traces);
    shapes_are_well_formed((draw(self::after(reached, 1), 1) % SHAPES) as int);
}

} // verus!
