//! The engine: turns order requests into resting orders, matches them, and
//! reports trades and order updates.
use vstd::prelude::*;

use crate::event::Event;
use crate::model::{OrderRequest, OrderStatus, OrderUpdate, Tick};
use crate::order_book::{
    lemma_add_step, lemma_found_order, lemma_match_step, lemma_matched, lemma_trade_ids_consecutive,
    match_run, BookView, OrderBook, OrderBookError,
};
use crate::strategy::Strategy;

verus! {

#[derive(Debug, Clone, Copy, PartialEq, Eq, Structural)]
pub enum EngineError {
    OrderBook(OrderBookError),
    /// Every order id has been handed out.
    OrderIdsExhausted,
}

#[derive(Debug)]
pub struct Engine {
    order_book: OrderBook,
    next_order_id: u64,
    next_trade_id: u64,
}

/// Mathematical model of the engine.
pub struct EngineView {
    pub book: BookView,
    pub next_order_id: u64,
    pub next_trade_id: u64,
}

/// The update reported for an order after `filled` units of it traded: its
/// state in the book, or filled with nothing remaining once it has left.
pub open spec fn order_update_for(b: BookView, order_id: u64, filled: u64, timestamp: u64) -> OrderUpdate {
    if b.contains_id(order_id) {
        let o = b.order_with_id(order_id);
        OrderUpdate {
            order_id,
            status: o.status,
            filled_quantity: filled,
            remaining_quantity: o.quantity,
            timestamp,
        }
    } else {
        OrderUpdate {
            order_id,
            status: OrderStatus::Filled,
            filled_quantity: filled,
            remaining_quantity: 0,
            timestamp,
        }
    }
}

/// The update that announces a newly accepted order.
pub open spec fn accepted_update(order_id: u64, quantity: u64) -> OrderUpdate {
    OrderUpdate {
        order_id,
        status: OrderStatus::New,
        filled_quantity: 0,
        remaining_quantity: quantity,
        timestamp: 0,
    }
}

/// The events of matching until the book no longer crosses (at most `fuel`
/// trades): each trade followed by the updates of its buy and sell orders;
/// also the book left and the next trade id.
pub open spec fn match_events(b: BookView, trade_id: u64, fuel: nat) -> (Seq<Event>, BookView, u64)
    decreases fuel,
{
    if fuel == 0 || !b.crossed() {
        (Seq::empty(), b, trade_id)
    } else {
        let t = b.next_trade(trade_id, 0);
        let nb = b.after_match();
        let rest = match_events(nb, (trade_id + 1) as u64, (fuel - 1) as nat);
        (
            seq![
                Event::Trade(t),
                Event::OrderUpdate(order_update_for(nb, t.buy_order_id, t.quantity, 0)),
                Event::OrderUpdate(order_update_for(nb, t.sell_order_id, t.quantity, 0)),
            ] + rest.0,
            rest.1,
            rest.2,
        )
    }
}

/// The events of a result, as a sequence.
pub open spec fn events_of(result: Result<Vec<Event>, EngineError>) -> Result<Seq<Event>, EngineError> {
    match result {
        Ok(events) => Ok(events@),
        Err(e) => Err(e),
    }
}

impl EngineView {
    /// Handling one order request: the request becomes an order with the next
    /// id, joins the book and is announced, then the book is matched.
    pub open spec fn request_outcome(self, request: OrderRequest) -> (
        Result<Seq<Event>, EngineError>,
        EngineView,
    ) {
        if self.next_order_id == u64::MAX {
            (Err(EngineError::OrderIdsExhausted), self)
        } else {
            let id = self.next_order_id;
            let b1 = self.book.add(request.spec_into_order(id));
            let m = match_events(b1, self.next_trade_id, b1.total());
            (
                Ok(seq![Event::OrderUpdate(accepted_update(id, request.quantity))] + m.0),
                EngineView { book: m.1, next_order_id: (id + 1) as u64, next_trade_id: m.2 },
            )
        }
    }

    /// Handling an event: only order requests do anything.
    pub open spec fn event_outcome(self, event: Event) -> (Result<Seq<Event>, EngineError>, EngineView) {
        match event {
            Event::OrderRequest(request) => self.request_outcome(request),
            _ => (Ok(Seq::empty()), self),
        }
    }

    /// Handling requests in order, stopping at the first error: the events
    /// of all requests, or the first error.
    pub open spec fn requests_outcome(self, requests: Seq<OrderRequest>) -> (
        Result<Seq<Event>, EngineError>,
        EngineView,
    )
        decreases requests.len(),
    {
        if requests.len() == 0 {
            (Ok(Seq::empty()), self)
        } else {
            let before = self.requests_outcome(requests.drop_last());
            match before.0 {
                Err(e) => (Err(e), before.1),
                Ok(events) => {
                    let last = before.1.request_outcome(requests.last());
                    match last.0 {
                        Ok(more) => (Ok(events + more), last.1),
                        Err(e) => (Err(e), last.1),
                    }
                },
            }
        }
    }
}

/// Once handling requests has failed, later requests change nothing.
pub proof fn lemma_requests_error_stays(v: EngineView, requests: Seq<OrderRequest>, n: int)
    requires
        0 <= n <= requests.len(),
        v.requests_outcome(requests.take(n)).0 is Err,
    ensures
        v.requests_outcome(requests) == v.requests_outcome(requests.take(n)),
    decreases requests.len(),
{
    if n == requests.len() {
        assert(requests.take(n) =~= requests);
    } else {
        assert(requests.drop_last().take(n) =~= requests.take(n));
        lemma_requests_error_stays(v, requests.drop_last(), n);
    }
}

/// The engine's matching agrees with the order book's: the same book is
/// left, one trade event opens every three events, in the order the book
/// trades, followed by the updates of its buy and its sell order in the book
/// as that trade left it, and the trade id advances once per trade.
pub proof fn lemma_match_events_agree(b: BookView, trade_id: u64, fuel: nat)
    requires
        trade_id + fuel <= u64::MAX,
    ensures
        match_events(b, trade_id, fuel).1 == match_run(b, trade_id, 0, fuel).1,
        match_events(b, trade_id, fuel).2 == trade_id + match_run(b, trade_id, 0, fuel).0.len(),
        match_events(b, trade_id, fuel).0.len() == 3 * match_run(b, trade_id, 0, fuel).0.len(),
        forall|j: int|
            0 <= j < match_run(b, trade_id, 0, fuel).0.len() ==> match_events(b, trade_id, fuel).0[3
                * j] == Event::Trade(#[trigger] match_run(b, trade_id, 0, fuel).0[j]),
        forall|j: int|
            #![trigger match_run(b, trade_id, 0, fuel).0[j]]
            0 <= j < match_run(b, trade_id, 0, fuel).0.len() ==> {
                &&& match_events(b, trade_id, fuel).0[3 * j + 1] == Event::OrderUpdate(
                    order_update_for(
                        match_run(b, trade_id, 0, (j + 1) as nat).1,
                        match_run(b, trade_id, 0, fuel).0[j].buy_order_id,
                        match_run(b, trade_id, 0, fuel).0[j].quantity,
                        0,
                    ),
                )
                &&& match_events(b, trade_id, fuel).0[3 * j + 2] == Event::OrderUpdate(
                    order_update_for(
                        match_run(b, trade_id, 0, (j + 1) as nat).1,
                        match_run(b, trade_id, 0, fuel).0[j].sell_order_id,
                        match_run(b, trade_id, 0, fuel).0[j].quantity,
                        0,
                    ),
                )
            },
    decreases fuel,
{
    if fuel > 0 && b.crossed() {
        let nb = b.after_match();
        lemma_match_events_agree(nb, (trade_id + 1) as u64, (fuel - 1) as nat);
        let m = match_events(b, trade_id, fuel);
        let r = match_run(b, trade_id, 0, fuel);
        let mr = match_events(nb, (trade_id + 1) as u64, (fuel - 1) as nat);
        let rr = match_run(nb, (trade_id + 1) as u64, 0, (fuel - 1) as nat);
        assert(r.0 == seq![b.next_trade(trade_id, 0)] + rr.0);
        assert forall|j: int| 0 <= j < r.0.len() implies m.0[3 * j] == Event::Trade(
            #[trigger] r.0[j],
        ) by {
            if j > 0 {
                assert(m.0[3 * j] == mr.0[3 * (j - 1)]);
                assert(r.0[j] == rr.0[j - 1]);
            }
        }
        assert forall|j: int|
            #![trigger r.0[j]]
            0 <= j < r.0.len() implies {
                &&& m.0[3 * j + 1] == Event::OrderUpdate(
                    order_update_for(match_run(b, trade_id, 0, (j + 1) as nat).1, r.0[j].buy_order_id, r.0[j].quantity, 0),
                )
                &&& m.0[3 * j + 2] == Event::OrderUpdate(
                    order_update_for(match_run(b, trade_id, 0, (j + 1) as nat).1, r.0[j].sell_order_id, r.0[j].quantity, 0),
                )
            } by {
            if j > 0 {
                assert(m.0[3 * j + 1] == mr.0[3 * (j - 1) + 1]);
                assert(m.0[3 * j + 2] == mr.0[3 * (j - 1) + 2]);
                assert(r.0[j] == rr.0[j - 1]);
                assert(match_run(b, trade_id, 0, (j + 1) as nat).1 == match_run(
                    nb,
                    (trade_id + 1) as u64,
                    0,
                    j as nat,
                ).1);
            } else {
                assert(match_run(nb, (trade_id + 1) as u64, 0, 0).1 == nb);
                assert(match_run(b, trade_id, 0, 1).1 == nb);
            }
        }
    }
}

/// The two updates that follow a trade account for it: each reports the
/// trade's quantity as filled, and filled plus remaining is the quantity its
/// order had before the trade. At least one of the two orders has nothing
/// left and is filled; an order with a remainder is partially filled.
pub proof fn lemma_trade_updates(b: BookView, trade_id: u64)
    requires
        b.consistent(),
        b.crossed(),
    ensures
        ({
            let t = b.next_trade(trade_id, 0);
            let nb = b.after_match();
            let buy = order_update_for(nb, t.buy_order_id, t.quantity, 0);
            let sell = order_update_for(nb, t.sell_order_id, t.quantity, 0);
            &&& buy.order_id == b.bids[0].orders[0].id
            &&& sell.order_id == b.asks[0].orders[0].id
            &&& buy.filled_quantity == t.quantity
            &&& sell.filled_quantity == t.quantity
            &&& buy.filled_quantity + buy.remaining_quantity == b.bids[0].orders[0].quantity
            &&& sell.filled_quantity + sell.remaining_quantity == b.asks[0].orders[0].quantity
            &&& buy.remaining_quantity == 0 || sell.remaining_quantity == 0
            &&& buy.status == if buy.remaining_quantity == 0 {
                OrderStatus::Filled
            } else {
                OrderStatus::PartiallyFilled
            }
            &&& sell.status == if sell.remaining_quantity == 0 {
                OrderStatus::Filled
            } else {
                OrderStatus::PartiallyFilled
            }
        }),
{
    lemma_match_step(b);
}

impl View for Engine {
    type V = EngineView;

    closed spec fn view(&self) -> EngineView {
        EngineView {
            book: self.order_book@,
            next_order_id: self.next_order_id,
            next_trade_id: self.next_trade_id,
        }
    }
}

/// Matching events run out before their fuel does.
pub proof fn lemma_match_events_fuel(b: BookView, trade_id: u64, f1: nat, f2: nat)
    requires
        b.consistent(),
        f1 >= b.total(),
        f2 >= b.total(),
    ensures
        match_events(b, trade_id, f1) == match_events(b, trade_id, f2),
        match_events(b, trade_id, f1).1.consistent(),
        !match_events(b, trade_id, f1).1.crossed(),
        match_events(b, trade_id, f1).2 <= trade_id + b.total(),
    decreases f1,
{
    if b.crossed() {
        lemma_match_step(b);
        lemma_match_events_fuel(b.after_match(), (trade_id + 1) as u64, (f1 - 1) as nat, (f2 - 1) as nat);
    }
}

impl Engine {
    /// The engine's invariant: a valid book, every resting id already handed
    /// out, and no more trades plus resting orders than orders accepted.
    pub closed spec fn wf(&self) -> bool {
        &&& self.order_book.wf()
        &&& 1 <= self.next_trade_id
        &&& self.next_trade_id + self.order_book@.total() <= self.next_order_id
        &&& forall|id: u64| #[trigger] self.order_book@.contains_id(id) ==> id < self.next_order_id
    }

    /// A fresh engine: an empty book, and ids from 1.
    pub open spec fn new_view() -> EngineView {
        EngineView {
            book: BookView { bids: Seq::empty(), asks: Seq::empty() },
            next_order_id: 1,
            next_trade_id: 1,
        }
    }

    pub fn new() -> (engine: Self)
        ensures
            engine.wf(),
            engine@ == Engine::new_view(),
    {
        let engine = Engine { order_book: OrderBook::new(), next_order_id: 1, next_trade_id: 1 };
        proof {
            assert(engine.order_book@.total() == 0);
            assert(engine@.book.bids =~= Engine::new_view().book.bids);
            assert(engine@.book.asks =~= Engine::new_view().book.asks);
        }
        engine
    }

    /// Handles an event; only order requests produce output.
    pub fn handle_event(&mut self, event: Event) -> (result: Result<Vec<Event>, EngineError>)
        requires
            old(self).wf(),
        ensures
            final(self).wf(),
            events_of(result) == old(self)@.event_outcome(event).0,
            final(self)@ == old(self)@.event_outcome(event).1,
    {
        match event {
            Event::MarketTick(_tick) => Ok(Vec::new()),
            Event::OrderRequest(request) => self.handle_order_request(request),
            Event::OrderUpdate(_update) => Ok(Vec::new()),
            Event::Trade(_trade) => Ok(Vec::new()),
        }
    }

    /// Handles order requests in order, stopping at the first error.
    pub fn handle_order_requests(&mut self, requests: Vec<OrderRequest>) -> (result: Result<
        Vec<Event>,
        EngineError,
    >)
        requires
            old(self).wf(),
        ensures
            final(self).wf(),
            events_of(result) == old(self)@.requests_outcome(requests@).0,
            final(self)@ == old(self)@.requests_outcome(requests@).1,
    {
        let ghost e0 = self@;
        let ghost all = requests@;
        let mut output_events: Vec<Event> = Vec::new();
        for request in it: requests
            invariant
                self.wf(),
                e0 == old(self)@,
                all == requests@,
                all == it.seq(),
                e0.requests_outcome(all.take(it.index() as int)).0 == Ok::<
                    Seq<Event>,
                    EngineError,
                >(output_events@),
                e0.requests_outcome(all.take(it.index() as int)).1 == self@,
        {
            let ghost before = all.take(it.index() as int);
            let ghost state = self@;
            proof {
                assert(all.take(it.index() + 1).drop_last() =~= before);
                assert(all.take(it.index() + 1).last() == request);
            }
            match self.handle_event(Event::OrderRequest(request)) {
                Ok(mut events) => {
                    output_events.append(&mut events);
                },
                Err(e) => {
                    proof {
                        assert(state.request_outcome(request).0 == Err::<Seq<Event>, EngineError>(e));
                        assert(e0.requests_outcome(all.take(it.index() + 1)).0 is Err);
                        lemma_requests_error_stays(e0, all, it.index() + 1);
                    }
                    return Err(e);
                },
            }
        }
        proof {
            assert(all.take(all.len() as int) =~= all);
        }
        Ok(output_events)
    }

    /// Asks the strategy, once, for its requests on this tick and handles
    /// them in order, stopping at the first error.
    pub fn process_market_tick<S: Strategy>(&mut self, tick: &Tick, strategy: &mut S) -> (result:
        Result<Vec<Event>, EngineError>)
        requires
            old(self).wf(),
        ensures
            final(self).wf(),
            exists|requests: Seq<OrderRequest>|
                #[trigger] (*old(strategy)).reacts(*tick, requests, *final(strategy))
                    && events_of(result) == old(self)@.requests_outcome(requests).0
                    && final(self)@ == old(self)@.requests_outcome(requests).1,
    {
        let requests = strategy.on_tick(tick);
        let ghost seen = requests@;
        let result = self.handle_order_requests(requests);
        proof {
            assert(events_of(result) == old(self)@.requests_outcome(seen).0);
        }
        result
    }

    pub fn order_count(&self) -> (count: usize)
        requires
            self.wf(),
        ensures
            count == self@.book.total(),
    {
        self.order_book.order_count()
    }

    pub fn best_bid(&self) -> (price: Option<i64>)
        ensures
            price == self@.book.best_bid(),
    {
        self.order_book.best_bid()
    }

    pub fn best_ask(&self) -> (price: Option<i64>)
        ensures
            price == self@.book.best_ask(),
    {
        self.order_book.best_ask()
    }

    fn handle_order_request(&mut self, request: OrderRequest) -> (result: Result<
        Vec<Event>,
        EngineError,
    >)
        requires
            old(self).wf(),
        ensures
            final(self).wf(),
            events_of(result) == old(self)@.request_outcome(request).0,
            final(self)@ == old(self)@.request_outcome(request).1,
    {
        if self.next_order_id == u64::MAX {
            return Err(EngineError::OrderIdsExhausted);
        }
        let ghost e0 = self@;
        proof {
            self.order_book.lemma_wf_consistent();
        }
        let order_id = self.next_order_id;
        self.next_order_id = self.next_order_id + 1;
        let order = request.into_order(order_id);
        let ghost o = order;
        match self.order_book.add_order(order) {
            Ok(()) => {},
            Err(e) => {
                proof {
                    assert(e0.book.contains_id(order_id));
                    assert(false);
                }
                return Err(EngineError::OrderBook(e));
            },
        }
        let ghost b1 = self.order_book@;
        let ghost all = match_events(b1, e0.next_trade_id, b1.total());
        proof {
            self.order_book.lemma_wf_consistent();
            lemma_add_step(e0.book, o);
            lemma_found_order(b1, o);
            lemma_match_events_fuel(b1, e0.next_trade_id, b1.total(), b1.total());
        }
        let timestamp: u64 = 0;
        let mut output_events: Vec<Event> = Vec::new();
        let accepted = self.build_order_update(order_id, 0, timestamp);
        output_events.push(Event::OrderUpdate(accepted));
        let ghost mut done: Seq<Event> = Seq::empty();
        loop
            invariant
                timestamp == 0,
                self.order_book.wf(),
                self.next_order_id == order_id + 1,
                all == match_events(b1, e0.next_trade_id, b1.total()),
                output_events@ == seq![Event::OrderUpdate(accepted_update(order_id, request.quantity))]
                    + done,
                all.0 == done + match_events(
                    self.order_book@,
                    self.next_trade_id,
                    self.order_book@.total(),
                ).0,
                all.1 == match_events(self.order_book@, self.next_trade_id, self.order_book@.total()).1,
                all.2 == match_events(self.order_book@, self.next_trade_id, self.order_book@.total()).2,
                1 <= self.next_trade_id,
                self.next_trade_id + self.order_book@.total() <= self.next_order_id,
                forall|id: u64| #[trigger] self.order_book@.contains_id(id) ==> id < self.next_order_id,
            ensures
                self.wf(),
                output_events@ == seq![Event::OrderUpdate(accepted_update(order_id, request.quantity))]
                    + all.0,
                self.order_book@ == all.1,
                self.next_trade_id == all.2,
            decreases self.order_book@.total(),
        {
            let ghost b = self.order_book@;
            let ghost tid = self.next_trade_id;
            proof {
                self.order_book.lemma_wf_consistent();
            }
            match self.order_book.match_best_orders(self.next_trade_id, timestamp) {
                Some(trade) => {
                    let ghost nb = b.after_match();
                    proof {
                        lemma_match_step(b);
                        lemma_match_events_fuel(
                            nb,
                            (tid + 1) as u64,
                            (b.total() - 1) as nat,
                            nb.total(),
                        );
                    }
                    let buy_update = self.build_order_update(
                        trade.buy_order_id,
                        trade.quantity,
                        timestamp,
                    );
                    let sell_update = self.build_order_update(
                        trade.sell_order_id,
                        trade.quantity,
                        timestamp,
                    );
                    let ghost step = seq![
                        Event::Trade(trade),
                        Event::OrderUpdate(buy_update),
                        Event::OrderUpdate(sell_update),
                    ];
                    self.next_trade_id = self.next_trade_id + 1;
                    output_events.push(Event::Trade(trade));
                    output_events.push(Event::OrderUpdate(buy_update));
                    output_events.push(Event::OrderUpdate(sell_update));
                    proof {
                        assert(match_events(b, tid, b.total()).0 == step + match_events(
                            nb,
                            (tid + 1) as u64,
                            nb.total(),
                        ).0);
                        assert(all.0 =~= (done + step) + match_events(
                            nb,
                            (tid + 1) as u64,
                            nb.total(),
                        ).0);
                        done = done + step;
                        assert(output_events@ =~= seq![
                            Event::OrderUpdate(accepted_update(order_id, request.quantity)),
                        ] + done);
                    }
                },
                None => {
                    proof {
                        assert(all.0 =~= done);
                    }
                    break ;
                },
            }
        }
        Ok(output_events)
    }

    /// What one order request does to a valid engine with ids left: the
    /// first event announces the new order under the next id; then, for each
    /// trade of matching the book with the new order, in order and with
    /// consecutive trade ids, a trade event and the updates of its buy and
    /// its sell order as that trade left them (filled with nothing remaining
    /// once gone); the book left no longer crosses.
    pub proof fn lemma_request_effect(&self, request: OrderRequest)
        requires
            self.wf(),
            self@.next_order_id < u64::MAX,
        ensures
            ({
                let e = self@;
                let id = e.next_order_id;
                let b1 = e.book.add(request.spec_into_order(id));
                let trades = b1.matched(e.next_trade_id, 0).0;
                let out = e.request_outcome(request);
                &&& out.0 is Ok
                &&& out.0->Ok_0.len() == 1 + 3 * trades.len()
                &&& out.0->Ok_0[0] == Event::OrderUpdate(accepted_update(id, request.quantity))
                &&& out.0->Ok_0[0] == Event::OrderUpdate(
                    OrderUpdate {
                        order_id: id,
                        status: OrderStatus::New,
                        filled_quantity: 0,
                        remaining_quantity: request.quantity,
                        timestamp: 0,
                    },
                )
                &&& forall|j: int|
                    0 <= j < trades.len() ==> out.0->Ok_0[1 + 3 * j] == Event::Trade(
                        #[trigger] trades[j],
                    ) && trades[j].trade_id == e.next_trade_id + j
                &&& forall|j: int|
                    #![trigger trades[j]]
                    0 <= j < trades.len() ==> {
                        &&& out.0->Ok_0[2 + 3 * j] == Event::OrderUpdate(
                            order_update_for(
                                match_run(b1, e.next_trade_id, 0, (j + 1) as nat).1,
                                trades[j].buy_order_id,
                                trades[j].quantity,
                                0,
                            ),
                        )
                        &&& out.0->Ok_0[3 + 3 * j] == Event::OrderUpdate(
                            order_update_for(
                                match_run(b1, e.next_trade_id, 0, (j + 1) as nat).1,
                                trades[j].sell_order_id,
                                trades[j].quantity,
                                0,
                            ),
                        )
                    }
                &&& out.1.next_order_id == id + 1
                &&& out.1.next_trade_id == e.next_trade_id + trades.len()
                &&& out.1.book == b1.matched(e.next_trade_id, 0).1
                &&& !out.1.book.crossed()
            }),
    {
        let e = self@;
        let id = e.next_order_id;
        let o = request.spec_into_order(id);
        self.order_book.lemma_wf_consistent();
        lemma_add_step(e.book, o);
        let b1 = e.book.add(o);
        lemma_matched(b1, e.next_trade_id, 0, b1.total());
        lemma_match_events_agree(b1, e.next_trade_id, b1.total());
        lemma_trade_ids_consecutive(b1, e.next_trade_id, 0, b1.total());
        lemma_match_events_fuel(b1, e.next_trade_id, b1.total(), b1.total());
        let m = match_events(b1, e.next_trade_id, b1.total());
        let evs = seq![Event::OrderUpdate(accepted_update(id, request.quantity))] + m.0;
        let trades = b1.matched(e.next_trade_id, 0).0;
        assert forall|j: int| 0 <= j < trades.len() implies evs[1 + 3 * j] == Event::Trade(
            #[trigger] trades[j],
        ) && trades[j].trade_id == e.next_trade_id + j by {
            assert(evs[1 + 3 * j] == m.0[3 * j]);
        }
        assert forall|j: int|
            #![trigger trades[j]]
            0 <= j < trades.len() implies {
                &&& evs[2 + 3 * j] == Event::OrderUpdate(
                    order_update_for(
                        match_run(b1, e.next_trade_id, 0, (j + 1) as nat).1,
                        trades[j].buy_order_id,
                        trades[j].quantity,
                        0,
                    ),
                )
                &&& evs[3 + 3 * j] == Event::OrderUpdate(
                    order_update_for(
                        match_run(b1, e.next_trade_id, 0, (j + 1) as nat).1,
                        trades[j].sell_order_id,
                        trades[j].quantity,
                        0,
                    ),
                )
            } by {
            assert(evs[2 + 3 * j] == m.0[3 * j + 1]);
            assert(evs[3 + 3 * j] == m.0[3 * j + 2]);
        }
    }

    fn build_order_update(&self, order_id: u64, filled_quantity: u64, timestamp: u64) -> (update: OrderUpdate)
        requires
            self.order_book.wf(),
        ensures
            update == order_update_for(self.order_book@, order_id, filled_quantity, timestamp),
    {
        match self.order_book.get_order(order_id) {
            Some(order) => OrderUpdate {
                order_id,
                status: order.status,
                filled_quantity,
                remaining_quantity: order.quantity,
                timestamp,
            },
            None => OrderUpdate {
                order_id,
                status: OrderStatus::Filled,
                filled_quantity,
                remaining_quantity: 0,
                timestamp,
            },
        }
    }
}

} // verus!
