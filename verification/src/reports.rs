//! The leaderboard: the competitors with their scores, best first.

use crate::error::ApiError;
use crate::game::Game;
use crate::http::Endpoint;
use crate::http::Method;
use crate::http::Route;
use crate::round::Round;
use crate::scoring::bonus_score;
use crate::scoring::is_listed;
use crate::scoring::is_ranking;
use crate::scoring::lemma_bonus_score_bounds;
use crate::scoring::lemma_tip_score_bounds;
use crate::scoring::ranking;
use crate::scoring::score_bonus;
use crate::scoring::score_tips;
use crate::scoring::tip_score;
use crate::text::decimal;
use crate::text::decimal_text;
use crate::tip::Tip;
use crate::tipper::Tipper;
use vstd::prelude::*;

verus! {

/// The routes of the reports.
pub fn routes() -> (table: Vec<Route>)
    ensures
        table@.len() == 2,
        table@[0].is(Method::Get, "/leaderboard"@, Endpoint::Leaderboard),
        table@[1].is(Method::Get, "/round/<round_id>"@, Endpoint::RoundScores),
{
    let mut table: Vec<Route> = Vec::new();
    table.push(Route { method: Method::Get, path: "/leaderboard", endpoint: Endpoint::Leaderboard });
    table.push(
        Route { method: Method::Get, path: "/round/<round_id>", endpoint: Endpoint::RoundScores },
    );
    table
}

/// One line of the leaderboard.
#[derive(Debug, Clone)]
pub struct LeaderboardEntry {
    pub tipper_name: String,
    pub tip_score: i64,
    pub bonus_score: i64,
    pub total_score: i64,
}

/// The total of a competitor: points for tips and bonuses.
pub open spec fn total_score(
    tipper_id: Option<i32>,
    rounds: Seq<Round>,
    games: Seq<Game>,
    tips: Seq<Tip>,
    round_filter: Option<i32>,
) -> int {
    tip_score(tipper_id, tips, games, round_filter) + bonus_score(
        tipper_id,
        rounds,
        tips,
        games,
        round_filter,
    )
}

/// The totals of the competitors, in the order in which they are listed.
pub open spec fn totals_of(
    tippers: Seq<Tipper>,
    rounds: Seq<Round>,
    games: Seq<Game>,
    tips: Seq<Tip>,
    round_filter: Option<i32>,
) -> Seq<i64> {
    Seq::new(
        tippers.len(),
        |i: int| total_score(tippers[i].id, rounds, games, tips, round_filter) as i64,
    )
}

/// Whether the line is the competitor's: its name and its scores.
pub open spec fn is_entry_of(
    entry: LeaderboardEntry,
    tipper: Tipper,
    rounds: Seq<Round>,
    games: Seq<Game>,
    tips: Seq<Tip>,
    round_filter: Option<i32>,
) -> bool {
    &&& entry.tipper_name@ == tipper.name@
    &&& entry.tip_score == tip_score(tipper.id, tips, games, round_filter)
    &&& entry.bonus_score == bonus_score(tipper.id, rounds, tips, games, round_filter)
    &&& entry.total_score == total_score(tipper.id, rounds, games, tips, round_filter)
}

/// Whether the board is the leaderboard: one line for each competitor,
/// whether it has tipped or not, in the order of the ranking of the totals.
pub open spec fn is_leaderboard(
    board: Seq<LeaderboardEntry>,
    tippers: Seq<Tipper>,
    rounds: Seq<Round>,
    games: Seq<Game>,
    tips: Seq<Tip>,
    round_filter: Option<i32>,
) -> bool {
    exists|order: Seq<usize>|
        {
            &&& #[trigger] is_ranking(order, totals_of(tippers, rounds, games, tips, round_filter))
            &&& board.len() == tippers.len()
            &&& forall|a: int|
                0 <= a < board.len() ==> is_entry_of(
                    #[trigger] board[a],
                    tippers[order[a] as int],
                    rounds,
                    games,
                    tips,
                    round_filter,
                )
        }
}

/// Whether the board has the competitor's line.
pub open spec fn has_entry_of(
    board: Seq<LeaderboardEntry>,
    tipper: Tipper,
    rounds: Seq<Round>,
    games: Seq<Game>,
    tips: Seq<Tip>,
    round_filter: Option<i32>,
) -> bool {
    exists|a: int|
        0 <= a < board.len() && is_entry_of(
            #[trigger] board[a],
            tipper,
            rounds,
            games,
            tips,
            round_filter,
        )
}

/// The leaderboard lists every competitor, and no line has a lower total
/// than a line after it.
pub proof fn lemma_leaderboard_is_complete_and_sorted(
    board: Seq<LeaderboardEntry>,
    tippers: Seq<Tipper>,
    rounds: Seq<Round>,
    games: Seq<Game>,
    tips: Seq<Tip>,
    round_filter: Option<i32>,
)
    requires
        is_leaderboard(board, tippers, rounds, games, tips, round_filter),
        tips.len() < 0x4000_0000_0000_0000,
        rounds.len() <= 0x4000_0000,
    ensures
        forall|i: int|
            0 <= i < tippers.len() ==> has_entry_of(
                board,
                #[trigger] tippers[i],
                rounds,
                games,
                tips,
                round_filter,
            ),
        forall|a: int, b: int|
            0 <= a < b < board.len() ==> (#[trigger] board[a]).total_score >= (
            #[trigger] board[b]).total_score,
{
    let totals = totals_of(tippers, rounds, games, tips, round_filter);
    let order = choose|order: Seq<usize>|
        {
            &&& #[trigger] is_ranking(order, totals)
            &&& board.len() == tippers.len()
            &&& forall|a: int|
                0 <= a < board.len() ==> is_entry_of(
                    #[trigger] board[a],
                    tippers[order[a] as int],
                    rounds,
                    games,
                    tips,
                    round_filter,
                )
        };
    assert forall|i: int| 0 <= i < tippers.len() implies has_entry_of(
        board,
        #[trigger] tippers[i],
        rounds,
        games,
        tips,
        round_filter,
    ) by {
        assert(is_listed(order, i));
        let a = choose|a: int| 0 <= a < order.len() && #[trigger] order[a] == i;
        assert(is_entry_of(board[a], tippers[i], rounds, games, tips, round_filter));
    }
    assert forall|a: int, b: int| 0 <= a < b < board.len() implies (
    #[trigger] board[a]).total_score >= (#[trigger] board[b]).total_score by {
        let i = order[a] as int;
        let j = order[b] as int;
        lemma_tip_score_bounds(tippers[i].id, tips, games, round_filter);
        lemma_bonus_score_bounds(tippers[i].id, rounds, tips, games, round_filter);
        lemma_tip_score_bounds(tippers[j].id, tips, games, round_filter);
        lemma_bonus_score_bounds(tippers[j].id, rounds, tips, games, round_filter);
        assert(totals[i] == board[a].total_score);
        assert(totals[j] == board[b].total_score);
    }
}

/// Whether the tables are small enough for every score to fit its type.
pub open spec fn fits_scores(rounds: Seq<Round>, games: Seq<Game>, tips: Seq<Tip>) -> bool {
    &&& tips.len() < 0x4000_0000_0000_0000
    &&& games.len() <= i64::MAX
    &&& rounds.len() <= 0x4000_0000
}

/// Whether the tables are small enough for every score to fit its type.
pub fn can_score(rounds: &Vec<Round>, games: &Vec<Game>, tips: &Vec<Tip>) -> (yes: bool)
    ensures
        yes == fits_scores(rounds@, games@, tips@),
{
    (tips.len() as u64) < 0x4000_0000_0000_0000 && games.len() as u64 <= 0x7fff_ffff_ffff_ffff
        && rounds.len() <= 0x4000_0000
}

/// Works out the leaderboard from the competitors, the rounds, the games and
/// the tips.  Where a round is named, only the games of that round count,
/// for the tip scores and for the bonus.
pub fn scores(
    tippers: &Vec<Tipper>,
    rounds: &Vec<Round>,
    games: &Vec<Game>,
    tips: &Vec<Tip>,
    round_filter: Option<i32>,
) -> (board: Vec<LeaderboardEntry>)
    requires
        fits_scores(rounds@, games@, tips@),
    ensures
        is_leaderboard(board@, tippers@, rounds@, games@, tips@, round_filter),
{
    let ghost all = totals_of(tippers@, rounds@, games@, tips@, round_filter);
    let mut tip_scores: Vec<i64> = Vec::new();
    let mut bonus_scores: Vec<i64> = Vec::new();
    let mut totals: Vec<i64> = Vec::new();
    let mut i: usize = 0;
    while i < tippers.len()
        invariant
            i <= tippers.len(),
            tips.len() < 0x4000_0000_0000_0000,
            games.len() <= i64::MAX,
            rounds.len() <= 0x4000_0000,
            all == totals_of(tippers@, rounds@, games@, tips@, round_filter),
            tip_scores.len() == i,
            bonus_scores.len() == i,
            totals.len() == i,
            forall|j: int|
                0 <= j < i ==> #[trigger] tip_scores[j] == tip_score(
                    tippers[j].id,
                    tips@,
                    games@,
                    round_filter,
                ),
            forall|j: int|
                0 <= j < i ==> #[trigger] bonus_scores[j] == bonus_score(
                    tippers[j].id,
                    rounds@,
                    tips@,
                    games@,
                    round_filter,
                ),
            forall|j: int|
                0 <= j < i ==> #[trigger] totals[j] == tip_scores[j] + bonus_scores[j]
                    && totals[j] == all[j],
        decreases tippers.len() - i,
    {
        let id = tippers[i].id;
        let points: i64 = score_tips(id, tips, games, round_filter);
        let bonus: i64 = score_bonus(id, rounds, tips, games, round_filter);
        proof {
            lemma_tip_score_bounds(id, tips@, games@, round_filter);
            lemma_bonus_score_bounds(id, rounds@, tips@, games@, round_filter);
        }
        tip_scores.push(points);
        bonus_scores.push(bonus);
        totals.push(points + bonus);
        i = i + 1;
    }
    assert(totals@ =~= all);
    let order = ranking(&totals);
    let mut board: Vec<LeaderboardEntry> = Vec::new();
    let mut a: usize = 0;
    while a < order.len()
        invariant
            a <= order.len(),
            order.len() == tippers.len(),
            tip_scores.len() == tippers.len(),
            bonus_scores.len() == tippers.len(),
            totals.len() == tippers.len(),
            is_ranking(order@, totals@),
            board.len() == a,
            forall|j: int|
                0 <= j < tippers.len() ==> #[trigger] tip_scores[j] == tip_score(
                    tippers[j].id,
                    tips@,
                    games@,
                    round_filter,
                ),
            forall|j: int|
                0 <= j < tippers.len() ==> #[trigger] bonus_scores[j] == bonus_score(
                    tippers[j].id,
                    rounds@,
                    tips@,
                    games@,
                    round_filter,
                ),
            forall|j: int|
                0 <= j < tippers.len() ==> #[trigger] totals[j] == tip_scores[j] + bonus_scores[j],
            forall|b: int|
                0 <= b < a ==> is_entry_of(
                    #[trigger] board[b],
                    tippers[order[b] as int],
                    rounds@,
                    games@,
                    tips@,
                    round_filter,
                ),
        decreases order.len() - a,
    {
        let i: usize = order[a];
        let name = tippers[i].name.clone();
        board.push(
            LeaderboardEntry {
                tipper_name: name,
                tip_score: tip_scores[i],
                bonus_score: bonus_scores[i],
                total_score: totals[i],
            },
        );
        a = a + 1;
    }
    board
}

/// The leaderboard of the whole competition.
pub fn get_leaderboard(
    tippers: &Vec<Tipper>,
    rounds: &Vec<Round>,
    games: &Vec<Game>,
    tips: &Vec<Tip>,
) -> (board: Vec<LeaderboardEntry>)
    requires
        fits_scores(rounds@, games@, tips@),
    ensures
        is_leaderboard(board@, tippers@, rounds@, games@, tips@, None),
{
    scores(tippers, rounds, games, tips, None)
}

/// The leaderboard of one round: only the games of the round count.
pub fn get_score_by_round(
    tippers: &Vec<Tipper>,
    rounds: &Vec<Round>,
    games: &Vec<Game>,
    tips: &Vec<Tip>,
    round_id: i32,
) -> (board: Vec<LeaderboardEntry>)
    requires
        fits_scores(rounds@, games@, tips@),
    ensures
        is_leaderboard(board@, tippers@, rounds@, games@, tips@, Some(round_id)),
{
    scores(tippers, rounds, games, tips, Some(round_id))
}

/// What the leaderboard request answers with: the board, or no lines at all
/// where the board could not be had.
pub fn leaderboard(outcome: Result<Vec<LeaderboardEntry>, ApiError>) -> (board: Vec<
    LeaderboardEntry,
>)
    ensures
        match outcome {
            Ok(entries) => board == entries,
            Err(_) => board@.len() == 0,
        },
{
    match outcome {
        Ok(entries) => entries,
        Err(_) => Vec::new(),
    }
}

/// What the request for the scores of a round answers with: the board, or no
/// lines at all where the board could not be had.
pub fn round(outcome: Result<Vec<LeaderboardEntry>, ApiError>) -> (board: Vec<LeaderboardEntry>)
    ensures
        match outcome {
            Ok(entries) => board == entries,
            Err(_) => board@.len() == 0,
        },
{
    leaderboard(outcome)
}

/// The request path of the leaderboard: that of the round where one is
/// named, that of the whole competition otherwise.
pub open spec fn report_path_text(round_id: Option<i32>) -> Seq<char> {
    match round_id {
        Some(id) => "/reports/round/"@ + decimal_text(id as int),
        None => "/reports/leaderboard"@,
    }
}

/// The request path of the leaderboard.
pub fn report_path(round_id: Option<i32>) -> (path: String)
    ensures
        path@ == report_path_text(round_id),
{
    match round_id {
        Some(id) => {
            let number = decimal(id as i64);
            let mut path = String::from_str("/reports/round/");
            path.append(number.as_str());
            path
        },
        None => String::from_str("/reports/leaderboard"),
    }
}

/// The text with every double quote doubled.
pub open spec fn csv_quoted(text: Seq<char>) -> Seq<char>
    decreases text.len(),
{
    if text.len() == 0 {
        Seq::empty()
    } else {
        csv_quoted(text.drop_last()) + if text.last() == '"' {
            "\"\""@
        } else {
            seq![text.last()]
        }
    }
}

/// One line of the leaderboard as a line of comma-separated values: the name
/// in double quotes, then the three scores.
pub open spec fn csv_line(entry: LeaderboardEntry) -> Seq<char> {
    "\""@ + csv_quoted(entry.tipper_name@) + "\","@ + decimal_text(entry.tip_score as int) + ","@
        + decimal_text(entry.bonus_score as int) + ","@ + decimal_text(entry.total_score as int)
        + "\n"@
}

/// The lines of the board as comma-separated values.
pub open spec fn csv_lines(board: Seq<LeaderboardEntry>) -> Seq<char>
    decreases board.len(),
{
    if board.len() == 0 {
        Seq::empty()
    } else {
        csv_lines(board.drop_last()) + csv_line(board.last())
    }
}

/// The board as comma-separated values under a line of headings.
pub open spec fn csv_text(board: Seq<LeaderboardEntry>) -> Seq<char> {
    "Tipper,Game Score,Bonus Score,Total Score\n"@ + csv_lines(board)
}

/// Appends the text to the line, with every double quote doubled.
fn append_quoted(line: &mut String, text: &str)
    ensures
        final(line)@ == old(line)@ + csv_quoted(text@),
{
    let ghost before = line@;
    let length: usize = text.unicode_len();
    let mut i: usize = 0;
    assert(text@.take(0) =~= Seq::<char>::empty());
    assert(before + csv_quoted(text@.take(0)) =~= before);
    while i < length
        invariant
            i <= length,
            length == text@.len(),
            line@ == before + csv_quoted(text@.take(i as int)),
        decreases length - i,
    {
        let c = text.get_char(i);
        proof {
            assert(text@.take(i + 1).drop_last() =~= text@.take(i as int));
            assert(text@.take(i + 1).last() == c);
        }
        if c == '"' {
            line.append("\"\"");
        } else {
            let one = text.substring_char(i, i + 1);
            assert(one@ =~= seq![c]);
            line.append(one);
        }
        assert(line@ =~= before + csv_quoted(text@.take(i + 1)));
        i = i + 1;
    }
    assert(text@.take(length as int) =~= text@);
}

/// Writes the board as comma-separated values under a line of headings, for
/// a spreadsheet to read.
pub fn leaderboard_csv(board: &Vec<LeaderboardEntry>) -> (csv: String)
    ensures
        csv@ == csv_text(board@),
{
    let mut csv = String::from_str("Tipper,Game Score,Bonus Score,Total Score\n");
    let ghost heading = csv@;
    let mut a: usize = 0;
    assert(board@.take(0) =~= Seq::<LeaderboardEntry>::empty());
    assert(heading + csv_lines(board@.take(0)) =~= heading);
    while a < board.len()
        invariant
            a <= board.len(),
            heading == "Tipper,Game Score,Bonus Score,Total Score\n"@,
            csv@ == heading + csv_lines(board@.take(a as int)),
        decreases board.len() - a,
    {
        let ghost so_far = csv@;
        let entry = &board[a];
        proof {
            assert(board@.take(a + 1).drop_last() =~= board@.take(a as int));
            assert(board@.take(a + 1).last() == *entry);
        }
        csv.append("\"");
        append_quoted(&mut csv, entry.tipper_name.as_str());
        csv.append("\",");
        let points = decimal(entry.tip_score);
        csv.append(points.as_str());
        csv.append(",");
        let bonus = decimal(entry.bonus_score);
        csv.append(bonus.as_str());
        csv.append(",");
        let total = decimal(entry.total_score);
        csv.append(total.as_str());
        csv.append("\n");
        assert(csv@ =~= so_far + csv_line(*entry));
        assert(csv@ =~= heading + csv_lines(board@.take(a + 1)));
        a = a + 1;
    }
    assert(board@.take(board.len() as int) =~= board@);
    csv
}

/// The part of the leaderboard query before the condition on the games.
pub const LEADERBOARD_QUERY_HEAD: &'static str = r#"
        WITH tip_scores AS (
            SELECT
                tips.tipper_id,
                games.round_id,
                tips.game_id,
                CASE
                    WHEN (tips.team_id = games.home_team_id AND games.home_team_score >= games.away_team_score)
                      OR (tips.team_id = games.away_team_id AND games.away_team_score >= games.home_team_score)
                    THEN 1 ELSE 0 END AS score
            FROM tips
            JOIN tippers ON tips.tipper_id = tippers.tipper_id
            JOIN games ON tips.game_id = games.game_id
            "#;

/// The part of the leaderboard query after the condition on the games.
pub const LEADERBOARD_QUERY_TAIL: &'static str = r#"
        ),
        round_perfect AS (
            SELECT
                ts.tipper_id,
                ts.round_id,
                CASE WHEN SUM(ts.score) > 0
                      AND SUM(ts.score) = (SELECT COUNT(*) FROM games g WHERE g.round_id = ts.round_id)
                    THEN r.bonus_points ELSE 0 END AS bonus
            FROM tip_scores ts
            JOIN rounds r ON ts.round_id = r.round_id
            GROUP BY ts.tipper_id, ts.round_id, r.bonus_points
        ),
        tipper_scores AS (
            SELECT
                tippers.tipper_id,
                tippers.name AS tipper_name,
                COALESCE(SUM(ts.score),0) AS tip_score
            FROM tippers
            LEFT JOIN tip_scores ts ON tippers.tipper_id = ts.tipper_id
            GROUP BY tippers.tipper_id, tippers.name
        ),
        tipper_bonuses AS (
            SELECT
                tippers.tipper_id,
                COALESCE(SUM(rp.bonus),0) AS bonus_score
            FROM tippers
            LEFT JOIN round_perfect rp ON tippers.tipper_id = rp.tipper_id
            GROUP BY tippers.tipper_id
        )
        SELECT
            ts.tipper_name,
            ts.tip_score,
            tb.bonus_score,
            (ts.tip_score + tb.bonus_score) AS total_score
        FROM tipper_scores ts
        LEFT JOIN tipper_bonuses tb ON ts.tipper_id = tb.tipper_id
        ORDER BY total_score DESC, ts.tipper_name, ts.tipper_id
    "#;

/// The text of the query that has a relational store work out the
/// leaderboard, with `where_clause` as the condition on the games that count
/// (empty for all games).  Only the text is stated here; which table the
/// store answers with is not.
pub fn leaderboard_sql(where_clause: &str) -> (sql: String)
    ensures
        sql@ == LEADERBOARD_QUERY_HEAD@ + where_clause@ + LEADERBOARD_QUERY_TAIL@,
{
    let mut sql = String::from_str(LEADERBOARD_QUERY_HEAD);
    sql.append(where_clause);
    sql.append(LEADERBOARD_QUERY_TAIL);
    sql
}

} // verus!
