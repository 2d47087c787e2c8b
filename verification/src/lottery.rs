//! The lottery family: tickets of six numbers bought by owners, and draws
//! that tickets participate in, each stored under a monotonic id.
use crate::codec::enc_opt_u64;
use crate::codec::enc_six_u32;
use crate::codec::enc_str;
use crate::codec::enc_strs;
use crate::codec::enc_u64;
use crate::codec::lemma_enc_opt_u64_shape;
use crate::codec::lemma_enc_six_u32_inj;
use crate::codec::lemma_enc_u32;
use crate::codec::lemma_enc_u64;
use crate::codec::put_opt_u64;
use crate::codec::put_six_u32;
use crate::codec::put_str;
use crate::codec::put_strs;
use crate::codec::put_u64;
use crate::codec::str_fits;
use crate::codec::strs_at;
use crate::codec::strs_fit;
use crate::codec::take_opt_u64;
use crate::codec::take_six_u32;
use crate::codec::take_str;
use crate::codec::take_strs;
use crate::codec::take_u64;
use crate::storage::Region;
use crate::store::has_id;
use crate::store::id_index;
use crate::store::lemma_find_after_put_fresh;
use crate::store::spec_find;
use crate::store::view_wf;
use crate::store::Record;
use crate::store::Store;
use crate::store::StoreView;
use vstd::prelude::*;

verus! {

/// Exactly six distinct numbers, each between one and forty-nine.
pub open spec fn numbers_ok(l: Seq<u32>) -> bool {
    &&& l.len() == 6
    &&& forall|i: int| 0 <= i < l.len() ==> 1 <= #[trigger] l[i] <= 49
    &&& forall|i: int, j: int| 0 <= i < j < l.len() ==> l[i] != l[j]
}

/// Whether the numbers form a playable pick: exactly six distinct values,
/// each between one and forty-nine.
pub fn valid_numbers(numbers: &Vec<u32>) -> (r: bool)
    ensures
        r == numbers_ok(numbers@),
{
    if numbers.len() != 6 {
        return false;
    }
    let mut i: usize = 0;
    while i < numbers.len()
        invariant
            numbers@.len() == 6,
            i <= 6,
            forall|j: int| 0 <= j < i ==> 1 <= #[trigger] numbers@[j] <= 49,
        decreases numbers@.len() - i,
    {
        if numbers[i] == 0 || numbers[i] > 49 {
            return false;
        }
        i = i + 1;
    }
    let mut a: usize = 0;
    while a < numbers.len()
        invariant
            numbers@.len() == 6,
            a <= 6,
            forall|p: int, q: int|
                0 <= p < q < numbers@.len() && p < a ==> numbers@[p] != numbers@[q],
        decreases numbers@.len() - a,
    {
        let mut b: usize = a + 1;
        while b < numbers.len()
            invariant
                numbers@.len() == 6,
                a < 6,
                a < b <= 6,
                forall|q: int| a < q < b ==> numbers@[a as int] != numbers@[q],
            decreases numbers@.len() - b,
        {
            if numbers[a] == numbers[b] {
                proof {
                    assert(numbers@[a as int] == numbers@[b as int]);
                }
                return false;
            }
            b = b + 1;
        }
        a = a + 1;
    }
    true
}

/// A lottery ticket: six numbers picked by an owner.
#[derive(Debug)]
pub struct LotteryTicket {
    pub id: u64,
    pub owner: String,
    pub numbers: Vec<u32>,
    pub created_at: u64,
    pub updated_at: Option<u64>,
}

/// What a ticket holds, at the specification level.
pub ghost struct TicketV {
    pub id: u64,
    pub owner: Seq<char>,
    pub numbers: Seq<u32>,
    pub created_at: u64,
    pub updated_at: Option<u64>,
}

impl View for LotteryTicket {
    type V = TicketV;

    open spec fn view(&self) -> TicketV {
        TicketV {
            id: self.id,
            owner: self.owner@,
            numbers: self.numbers@,
            created_at: self.created_at,
            updated_at: self.updated_at,
        }
    }
}

/// The fields of a ticket's encoding, read off the whole.
proof fn lemma_ticket_enc_parts(b: Seq<u8>, m: TicketV)
    requires
        <LotteryTicket as Record>::spec_valid(m),
        b == <LotteryTicket as Record>::spec_enc(m),
    ensures
        b.len() == 40 + enc_str(m.owner).len() + enc_opt_u64(m.updated_at).len(),
        b.subrange(0, 8) == enc_u64(m.id),
        b.subrange(8, 8 + enc_str(m.owner).len() as int) == enc_str(m.owner),
        b.subrange(
            8 + enc_str(m.owner).len() as int,
            32 + enc_str(m.owner).len() as int,
        ) == enc_six_u32(m.numbers),
        b.subrange(
            32 + enc_str(m.owner).len() as int,
            40 + enc_str(m.owner).len() as int,
        ) == enc_u64(m.created_at),
        b.subrange(40 + enc_str(m.owner).len() as int, b.len() as int) == enc_opt_u64(
            m.updated_at,
        ),
{
    lemma_enc_u64(m.id);
    lemma_enc_u64(m.created_at);
    lemma_enc_opt_u64_shape(m.updated_at);
    lemma_six_len(m.numbers);
    let lo = enc_str(m.owner).len() as int;
    assert(b.subrange(0, 8) =~= enc_u64(m.id));
    assert(b.subrange(8, 8 + lo) =~= enc_str(m.owner));
    assert(b.subrange(8 + lo, 32 + lo) =~= enc_six_u32(m.numbers));
    assert(b.subrange(32 + lo, 40 + lo) =~= enc_u64(m.created_at));
    assert(b.subrange(40 + lo, b.len() as int) =~= enc_opt_u64(m.updated_at));
}

/// Six encoded numbers take twenty-four bytes.
proof fn lemma_six_len(l: Seq<u32>)
    ensures
        enc_six_u32(l).len() == 24,
{
    lemma_enc_u32(l[0]);
    lemma_enc_u32(l[1]);
    lemma_enc_u32(l[2]);
    lemma_enc_u32(l[3]);
    lemma_enc_u32(l[4]);
    lemma_enc_u32(l[5]);
}

impl Record for LotteryTicket {
    open spec fn spec_id(v: TicketV) -> u64 {
        v.id
    }

    open spec fn pre_valid(v: TicketV) -> bool {
        v.numbers.len() == 6
    }

    open spec fn spec_valid(v: TicketV) -> bool {
        v.numbers.len() == 6 && str_fits(v.owner)
    }

    open spec fn spec_enc(v: TicketV) -> Seq<u8> {
        enc_u64(v.id) + enc_str(v.owner) + enc_six_u32(v.numbers) + enc_u64(v.created_at)
            + enc_opt_u64(v.updated_at)
    }

    proof fn valid_implies_pre(v: TicketV) {
    }

    fn rec_id(&self) -> u64 {
        self.id
    }

    fn encode(&self) -> (r: Vec<u8>) {
        let mut out: Vec<u8> = Vec::new();
        put_u64(&mut out, self.id);
        put_str(&mut out, self.owner.as_str());
        put_six_u32(&mut out, &self.numbers);
        put_u64(&mut out, self.created_at);
        put_opt_u64(&mut out, &self.updated_at);
        proof {
            assert(out@ =~= Self::spec_enc(self@));
        }
        out
    }

    fn decode(bytes: &Vec<u8>) -> (r: Option<Self>) {
        let r1 = take_u64(bytes, 0);
        if r1.is_none() {
            proof {
                assert forall|m: TicketV| Self::spec_valid(m) implies bytes@
                    != #[trigger] Self::spec_enc(m) by {
                    if Self::spec_valid(m) && bytes@ == Self::spec_enc(m) {
                        lemma_ticket_enc_parts(bytes@, m);
                    }
                }
            }
            return None;
        }
        let (id, p1) = r1.unwrap();
        let r2 = take_str(bytes, p1);
        if r2.is_none() {
            proof {
                assert forall|m: TicketV| Self::spec_valid(m) implies bytes@
                    != #[trigger] Self::spec_enc(m) by {
                    if Self::spec_valid(m) && bytes@ == Self::spec_enc(m) {
                        lemma_ticket_enc_parts(bytes@, m);
                    }
                }
            }
            return None;
        }
        let (owner, p2) = r2.unwrap();
        let r3 = take_six_u32(bytes, p2);
        if r3.is_none() {
            proof {
                assert forall|m: TicketV| Self::spec_valid(m) implies bytes@
                    != #[trigger] Self::spec_enc(m) by {
                    if Self::spec_valid(m) && bytes@ == Self::spec_enc(m) {
                        lemma_ticket_enc_parts(bytes@, m);
                        assert(p2 == 8 + enc_str(m.owner).len());
                    }
                }
            }
            return None;
        }
        let (numbers, p3) = r3.unwrap();
        let r4 = take_u64(bytes, p3);
        if r4.is_none() {
            proof {
                assert forall|m: TicketV| Self::spec_valid(m) implies bytes@
                    != #[trigger] Self::spec_enc(m) by {
                    if Self::spec_valid(m) && bytes@ == Self::spec_enc(m) {
                        lemma_ticket_enc_parts(bytes@, m);
                        assert(p2 == 8 + enc_str(m.owner).len());
                    }
                }
            }
            return None;
        }
        let (created_at, p4) = r4.unwrap();
        let r5 = take_opt_u64(bytes, p4);
        if r5.is_none() {
            proof {
                assert forall|m: TicketV| Self::spec_valid(m) implies bytes@
                    != #[trigger] Self::spec_enc(m) by {
                    if Self::spec_valid(m) && bytes@ == Self::spec_enc(m) {
                        lemma_ticket_enc_parts(bytes@, m);
                        assert(p2 == 8 + enc_str(m.owner).len());
                        lemma_enc_opt_u64_shape(m.updated_at);
                    }
                }
            }
            return None;
        }
        let (updated_at, p5) = r5.unwrap();
        if p5 != bytes.len() {
            proof {
                assert forall|m: TicketV| Self::spec_valid(m) implies bytes@
                    != #[trigger] Self::spec_enc(m) by {
                    if Self::spec_valid(m) && bytes@ == Self::spec_enc(m) {
                        lemma_ticket_enc_parts(bytes@, m);
                        assert(p2 == 8 + enc_str(m.owner).len());
                        lemma_enc_opt_u64_shape(m.updated_at);
                    }
                }
            }
            return None;
        }
        let t = LotteryTicket { id, owner, numbers, created_at, updated_at };
        proof {
            assert(bytes@ =~= bytes@.subrange(0, 8) + bytes@.subrange(8, p2 as int)
                + bytes@.subrange(p2 as int, p3 as int) + bytes@.subrange(p3 as int, p4 as int)
                + bytes@.subrange(p4 as int, p5 as int));
            assert(bytes@ == Self::spec_enc(t@));
            assert forall|m: TicketV|
                Self::spec_valid(m) && bytes@ == #[trigger] Self::spec_enc(m) implies t@ == m by {
                lemma_ticket_enc_parts(bytes@, m);
                lemma_enc_u64(m.id);
                assert(owner@ == m.owner);
                assert(p2 == 8 + enc_str(m.owner).len());
                lemma_enc_six_u32_inj(numbers@, m.numbers);
                lemma_enc_u64(m.created_at);
                lemma_enc_opt_u64_shape(m.updated_at);
                assert(bytes@.subrange(p4 as int, p5 as int) == enc_opt_u64(m.updated_at));
            }
        }
        Some(t)
    }
}

/// A lottery draw: six winning numbers and the owners taking part.
#[derive(Debug)]
pub struct LotteryDraw {
    pub id: u64,
    pub winning_numbers: Vec<u32>,
    pub draw_time: u64,
    pub participants: Vec<String>,
}

/// What a draw holds, at the specification level.
pub ghost struct DrawV {
    pub id: u64,
    pub winning_numbers: Seq<u32>,
    pub draw_time: u64,
    pub participants: Seq<Seq<char>>,
}

impl View for LotteryDraw {
    type V = DrawV;

    open spec fn view(&self) -> DrawV {
        DrawV {
            id: self.id,
            winning_numbers: self.winning_numbers@,
            draw_time: self.draw_time,
            participants: self.participants.deep_view(),
        }
    }
}

/// The fields of a draw's encoding, read off the whole.
proof fn lemma_draw_enc_parts(b: Seq<u8>, m: DrawV)
    requires
        <LotteryDraw as Record>::spec_valid(m),
        b == <LotteryDraw as Record>::spec_enc(m),
    ensures
        b.len() == 40 + enc_strs(m.participants).len(),
        b.subrange(0, 8) == enc_u64(m.id),
        b.subrange(8, 32) == enc_six_u32(m.winning_numbers),
        b.subrange(32, 40) == enc_u64(m.draw_time),
        b.subrange(40, b.len() as int) == enc_strs(m.participants),
        strs_at(b, 40, m.participants),
{
    lemma_enc_u64(m.id);
    lemma_enc_u64(m.draw_time);
    lemma_six_len(m.winning_numbers);
    assert(b.subrange(0, 8) =~= enc_u64(m.id));
    assert(b.subrange(8, 32) =~= enc_six_u32(m.winning_numbers));
    assert(b.subrange(32, 40) =~= enc_u64(m.draw_time));
    assert(b.subrange(40, b.len() as int) =~= enc_strs(m.participants));
}

impl Record for LotteryDraw {
    open spec fn spec_id(v: DrawV) -> u64 {
        v.id
    }

    open spec fn pre_valid(v: DrawV) -> bool {
        v.winning_numbers.len() == 6
    }

    open spec fn spec_valid(v: DrawV) -> bool {
        v.winning_numbers.len() == 6 && strs_fit(v.participants)
    }

    open spec fn spec_enc(v: DrawV) -> Seq<u8> {
        enc_u64(v.id) + enc_six_u32(v.winning_numbers) + enc_u64(v.draw_time) + enc_strs(
            v.participants,
        )
    }

    proof fn valid_implies_pre(v: DrawV) {
    }

    fn rec_id(&self) -> u64 {
        self.id
    }

    fn encode(&self) -> (r: Vec<u8>) {
        let mut out: Vec<u8> = Vec::new();
        put_u64(&mut out, self.id);
        put_six_u32(&mut out, &self.winning_numbers);
        put_u64(&mut out, self.draw_time);
        put_strs(&mut out, &self.participants);
        proof {
            assert(out@ =~= Self::spec_enc(self@));
        }
        out
    }

    fn decode(bytes: &Vec<u8>) -> (r: Option<Self>) {
        let r1 = take_u64(bytes, 0);
        if r1.is_none() {
            proof {
                assert forall|m: DrawV| Self::spec_valid(m) implies bytes@
                    != #[trigger] Self::spec_enc(m) by {
                    if Self::spec_valid(m) && bytes@ == Self::spec_enc(m) {
                        lemma_draw_enc_parts(bytes@, m);
                    }
                }
            }
            return None;
        }
        let (id, p1) = r1.unwrap();
        let r2 = take_six_u32(bytes, p1);
        if r2.is_none() {
            proof {
                assert forall|m: DrawV| Self::spec_valid(m) implies bytes@
                    != #[trigger] Self::spec_enc(m) by {
                    if Self::spec_valid(m) && bytes@ == Self::spec_enc(m) {
                        lemma_draw_enc_parts(bytes@, m);
                    }
                }
            }
            return None;
        }
        let (winning_numbers, p2) = r2.unwrap();
        let r3 = take_u64(bytes, p2);
        if r3.is_none() {
            proof {
                assert forall|m: DrawV| Self::spec_valid(m) implies bytes@
                    != #[trigger] Self::spec_enc(m) by {
                    if Self::spec_valid(m) && bytes@ == Self::spec_enc(m) {
                        lemma_draw_enc_parts(bytes@, m);
                    }
                }
            }
            return None;
        }
        let (draw_time, p3) = r3.unwrap();
        let r4 = take_strs(bytes, p3);
        if r4.is_none() {
            proof {
                assert forall|m: DrawV| Self::spec_valid(m) implies bytes@
                    != #[trigger] Self::spec_enc(m) by {
                    if Self::spec_valid(m) && bytes@ == Self::spec_enc(m) {
                        lemma_draw_enc_parts(bytes@, m);
                    }
                }
            }
            return None;
        }
        let (participants, p4) = r4.unwrap();
        if p4 != bytes.len() {
            proof {
                assert forall|m: DrawV| Self::spec_valid(m) implies bytes@
                    != #[trigger] Self::spec_enc(m) by {
                    if Self::spec_valid(m) && bytes@ == Self::spec_enc(m) {
                        lemma_draw_enc_parts(bytes@, m);
                    }
                }
            }
            return None;
        }
        let d = LotteryDraw { id, winning_numbers, draw_time, participants };
        proof {
            assert(bytes@ =~= bytes@.subrange(0, 8) + bytes@.subrange(8, p2 as int)
                + bytes@.subrange(p2 as int, p3 as int) + bytes@.subrange(
                p3 as int,
                p4 as int,
            ));
            assert(bytes@ == Self::spec_enc(d@));
            assert forall|m: DrawV|
                Self::spec_valid(m) && bytes@ == #[trigger] Self::spec_enc(m) implies d@ == m by {
                lemma_draw_enc_parts(bytes@, m);
                lemma_enc_u64(m.id);
                lemma_enc_six_u32_inj(winning_numbers@, m.winning_numbers);
                lemma_enc_u64(m.draw_time);
                assert(participants.deep_view() == m.participants);
            }
        }
        Some(d)
    }
}

/// Why a lottery operation failed.
#[derive(Debug, PartialEq, Eq, Structural)]
pub enum LotteryError {
    /// The referenced id holds no ticket or draw.
    NotFound,
    /// The numbers are not a playable pick.
    InvalidNumbers,
}

/// What the lottery holds: its tickets and its draws.
pub ghost struct LotteryView {
    pub tickets: StoreView<TicketV>,
    pub draws: StoreView<DrawV>,
}

/// The lottery: a ticket store and a draw store, each with its own counter,
/// in four durable regions.
pub struct Lottery {
    tickets: Store<LotteryTicket>,
    draws: Store<LotteryDraw>,
}

impl View for Lottery {
    type V = LotteryView;

    closed spec fn view(&self) -> LotteryView {
        LotteryView { tickets: self.tickets@, draws: self.draws@ }
    }
}

impl Lottery {
    /// Both stores mirror their durable maps.
    pub closed spec fn wf(self) -> bool {
        self.tickets.wf() && self.draws.wf()
    }

    /// A well-formed lottery has well-formed models.
    pub proof fn wf_view(&self)
        requires
            self.wf(),
        ensures
            view_wf::<LotteryTicket>(self@.tickets),
            view_wf::<LotteryDraw>(self@.draws),
    {
        self.tickets.wf_view();
        self.draws.wf_view();
    }

    /// Opens the lottery in four durable regions; nothing is returned when
    /// any region holds corrupt state.
    pub fn open(
        ticket_counter_region: Region,
        ticket_map_region: Region,
        draw_counter_region: Region,
        draw_map_region: Region,
    ) -> (r: Option<Lottery>)
        ensures
            r matches Some(l) ==> l.wf(),
    {
        let tickets = match Store::<LotteryTicket>::open(ticket_counter_region, ticket_map_region) {
            Some(s) => s,
            None => {
                return None;
            },
        };
        let draws = match Store::<LotteryDraw>::open(draw_counter_region, draw_map_region) {
            Some(s) => s,
            None => {
                return None;
            },
        };
        Some(Lottery { tickets, draws })
    }

    /// Buys a ticket: six distinct numbers, each between one and
    /// forty-nine, for the owner, stamped with the given time, under a
    /// fresh ticket id.
    /// Invalid numbers are refused before any mutation.
    pub fn buy_lottery_ticket(&mut self, owner: String, numbers: Vec<u32>, now: u64) -> (r: Result<
        LotteryTicket,
        LotteryError,
    >)
        requires
            old(self).wf(),
            old(self)@.tickets.next < u64::MAX,
        ensures
            final(self).wf(),
            final(self)@.draws == old(self)@.draws,
            !numbers_ok(numbers@) ==> r == Result::<LotteryTicket, LotteryError>::Err(
                LotteryError::InvalidNumbers,
            ) && final(self)@ == old(self)@,
            numbers_ok(numbers@) ==> (r matches Ok(t) && t@ == (TicketV {
                id: (old(self)@.tickets.next + 1) as u64,
                owner: owner@,
                numbers: numbers@,
                created_at: now,
                updated_at: None,
            }) && final(self)@.tickets.next == old(self)@.tickets.next + 1 && final(self)@.tickets.records == old(self)@.tickets.records.push(t@)),
    {
        if !valid_numbers(&numbers) {
            return Err(LotteryError::InvalidNumbers);
        }
        let id = self.tickets.fresh_id();
        let ticket = LotteryTicket { id, owner, numbers, created_at: now, updated_at: None };
        proof {
            old(self).tickets.wf_view();
            assert forall|i: int|
                0 <= i < self@.tickets.records.len() implies LotteryTicket::spec_id(
                #[trigger] self@.tickets.records[i],
            ) < LotteryTicket::spec_id(ticket@) by {
                assert(1 <= old(self)@.tickets.records[i].id <= old(self)@.tickets.next);
            }
        }
        self.tickets.insert(&ticket);
        proof {
            lemma_find_after_put_fresh::<LotteryTicket>(old(self)@.tickets.records, ticket@);
        }
        Ok(ticket)
    }

    /// The ticket stored under the id, if any.
    pub fn check_lottery_ticket(&self, id: u64) -> (r: Result<LotteryTicket, LotteryError>)
        requires
            self.wf(),
        ensures
            !has_id::<LotteryTicket>(self@.tickets.records, id) ==> r == Result::<
                LotteryTicket,
                LotteryError,
            >::Err(LotteryError::NotFound),
            has_id::<LotteryTicket>(self@.tickets.records, id) ==> (r matches Ok(t) && spec_find::<
                LotteryTicket,
            >(self@.tickets.records, id) == Some(t@)),
    {
        match self.tickets.get(id) {
            Some(t) => Ok(t),
            None => Err(LotteryError::NotFound),
        }
    }

    /// Conducts a draw of six distinct winning numbers, each between one
    /// and forty-nine, stamped with the given time, under a fresh draw id,
    /// with no participants yet.  Invalid numbers are refused before any
    /// mutation.
    pub fn conduct_lottery_draw(&mut self, winning_numbers: Vec<u32>, now: u64) -> (r: Result<
        LotteryDraw,
        LotteryError,
    >)
        requires
            old(self).wf(),
            old(self)@.draws.next < u64::MAX,
        ensures
            final(self).wf(),
            final(self)@.tickets == old(self)@.tickets,
            !numbers_ok(winning_numbers@) ==> r == Result::<LotteryDraw, LotteryError>::Err(
                LotteryError::InvalidNumbers,
            ) && final(self)@ == old(self)@,
            numbers_ok(winning_numbers@) ==> (r matches Ok(d) && d@ == (DrawV {
                id: (old(self)@.draws.next + 1) as u64,
                winning_numbers: winning_numbers@,
                draw_time: now,
                participants: Seq::empty(),
            }) && final(self)@.draws.next == old(self)@.draws.next + 1 && final(self)@.draws.records == old(self)@.draws.records.push(d@)),
    {
        if !valid_numbers(&winning_numbers) {
            return Err(LotteryError::InvalidNumbers);
        }
        let id = self.draws.fresh_id();
        let participants: Vec<String> = Vec::new();
        proof {
            assert(participants.deep_view() =~= Seq::<Seq<char>>::empty());
        }
        let draw = LotteryDraw { id, winning_numbers, draw_time: now, participants };
        proof {
            old(self).draws.wf_view();
            assert forall|i: int|
                0 <= i < self@.draws.records.len() implies LotteryDraw::spec_id(
                #[trigger] self@.draws.records[i],
            ) < LotteryDraw::spec_id(draw@) by {
                assert(1 <= old(self)@.draws.records[i].id <= old(self)@.draws.next);
            }
        }
        self.draws.insert(&draw);
        proof {
            lemma_find_after_put_fresh::<LotteryDraw>(old(self)@.draws.records, draw@);
        }
        Ok(draw)
    }

    /// Enters the ticket's owner into the draw's participants; both the
    /// ticket and the draw must exist.  The draw keeps its id, numbers and
    /// draw time.
    pub fn participate_in_lottery_draw(&mut self, ticket_id: u64, draw_id: u64) -> (r: Result<
        LotteryDraw,
        LotteryError,
    >)
        requires
            old(self).wf(),
        ensures
            final(self).wf(),
            final(self)@.tickets == old(self)@.tickets,
            final(self)@.draws.next == old(self)@.draws.next,
            !has_id::<LotteryTicket>(old(self)@.tickets.records, ticket_id) ==> r == Result::<
                LotteryDraw,
                LotteryError,
            >::Err(LotteryError::NotFound) && final(self)@ == old(self)@,
            has_id::<LotteryTicket>(old(self)@.tickets.records, ticket_id) && !has_id::<
                LotteryDraw,
            >(old(self)@.draws.records, draw_id) ==> r == Result::<LotteryDraw, LotteryError>::Err(
                LotteryError::NotFound,
            ) && final(self)@ == old(self)@,
            has_id::<LotteryTicket>(old(self)@.tickets.records, ticket_id) && has_id::<
                LotteryDraw,
            >(old(self)@.draws.records, draw_id) ==> (r matches Ok(d)
                && spec_find::<LotteryTicket>(old(self)@.tickets.records, ticket_id) matches Some(
                t,
            ) && spec_find::<LotteryDraw>(old(self)@.draws.records, draw_id) matches Some(od) && d@
                == (DrawV {
                id: od.id,
                winning_numbers: od.winning_numbers,
                draw_time: od.draw_time,
                participants: od.participants.push(t.owner),
            }) && final(self)@.draws.records == old(self)@.draws.records.update(
                id_index::<LotteryDraw>(old(self)@.draws.records, draw_id),
                d@,
            )),
    {
        let ticket = match self.tickets.get(ticket_id) {
            Some(t) => t,
            None => {
                return Err(LotteryError::NotFound);
            },
        };
        let mut draw = match self.draws.get(draw_id) {
            Some(d) => d,
            None => {
                return Err(LotteryError::NotFound);
            },
        };
        let ghost old_draw = draw@;
        draw.participants.push(ticket.owner);
        proof {
            assert(draw.participants.deep_view() =~= old_draw.participants.push(
                draw.participants@[draw.participants@.len() - 1]@,
            ));
            self.draws.wf_view();
            assert(has_id::<LotteryDraw>(self@.draws.records, draw_id));
            let i = id_index::<LotteryDraw>(self@.draws.records, draw_id);
            assert(1 <= LotteryDraw::spec_id(self@.draws.records[i]) <= self@.draws.next);
        }
        self.draws.insert(&draw);
        Ok(draw)
    }

    /// The last issued ticket id.  A caller checks it is below the largest
    /// 64-bit value before buying a ticket.
    pub fn last_ticket_id(&self) -> (r: u64)
        requires
            self.wf(),
        ensures
            r == self@.tickets.next,
    {
        self.tickets.last_id()
    }

    /// The last issued draw id.  A caller checks it is below the largest
    /// 64-bit value before conducting a draw.
    pub fn last_draw_id(&self) -> (r: u64)
        requires
            self.wf(),
        ensures
            r == self@.draws.next,
    {
        self.draws.last_id()
    }

    /// Every ticket, in ascending id order; an empty store is reported as
    /// `NotFound` rather than as an empty list.
    pub fn get_all_lottery_tickets(&self) -> (r: Result<Vec<LotteryTicket>, LotteryError>)
        requires
            self.wf(),
        ensures
            self@.tickets.records.len() == 0 ==> r == Result::<
                Vec<LotteryTicket>,
                LotteryError,
            >::Err(LotteryError::NotFound),
            self@.tickets.records.len() > 0 ==> (r matches Ok(l) && ticket_views(l@)
                == self@.tickets.records),
    {
        let all = self.tickets.records();
        if all.len() == 0 {
            return Err(LotteryError::NotFound);
        }
        proof {
            assert(ticket_views(all@) =~= self@.tickets.records);
        }
        Ok(all)
    }

    /// Every draw, in ascending id order; an empty store is reported as
    /// `NotFound` rather than as an empty list.
    pub fn get_all_lottery_draws(&self) -> (r: Result<Vec<LotteryDraw>, LotteryError>)
        requires
            self.wf(),
        ensures
            self@.draws.records.len() == 0 ==> r == Result::<Vec<LotteryDraw>, LotteryError>::Err(
                LotteryError::NotFound,
            ),
            self@.draws.records.len() > 0 ==> (r matches Ok(l) && draw_views(l@)
                == self@.draws.records),
    {
        let all = self.draws.records();
        if all.len() == 0 {
            return Err(LotteryError::NotFound);
        }
        proof {
            assert(draw_views(all@) =~= self@.draws.records);
        }
        Ok(all)
    }
}

/// The tickets' specification-level values, in order.
pub open spec fn ticket_views(s: Seq<LotteryTicket>) -> Seq<TicketV> {
    s.map_values(|t: LotteryTicket| t@)
}

/// The draws' specification-level values, in order.
pub open spec fn draw_views(s: Seq<LotteryDraw>) -> Seq<DrawV> {
    s.map_values(|d: LotteryDraw| d@)
}

} // verus!
