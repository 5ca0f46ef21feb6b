//! Intraday breakout screener: ranks symbols by traded value over a session
//! window, admits those whose candle pattern shows a qualifying bullish
//! breakout, and re-ranks the admitted set by sector clustering and session
//! return. Candle data comes from a per-symbol sqlite store; every decision
//! rule is verified over an in-memory model of the fetched candles.

pub mod candle;
pub mod d0_logic;
pub mod d_logic;
pub mod price;
pub mod price_calculator;
pub mod rate;
pub mod seqs;
pub mod stock_filter;
pub mod stock_info;
pub mod store;
pub mod times;
pub mod volume;
