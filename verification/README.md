# fx_scalp_core

The execution core of a conservative momentum scalping bot, verified with Verus.

`src/` is the library. Every decision of the bot is made there, and every function states in
its contract what it decides:

- `risk_enforcer`: hard risk limits, position sizing and scale-ins from locked profit only
- `state_machine`: the lifecycle of a trade, from signal to cooldown
- `trade_manager`, `scanner`, `session`: what the main loop does with trades, symbols, the
  account and the clock
- `order_executor`: orders, fills and positions
- `tick_ingestion`: a rolling window of ticks for each symbol
- `kill_switch`: the emergency stop
- `python_bridge`: strategy signals, with simple fallbacks
- `bridge_client`, `json`: requests to the strategy service and its answers
- `trade_journal`: completed trades as comma-separated values
- `double`, `rounding`: binary64 arithmetic, computed with integers and proved to be the
  correctly rounded result of every operation
- `symbol_map`, `text`, `decimal`, `clock`: what the others are built on

Functions named `law_...` are proofs of what holds across several calls, such as that a
second trigger of the kill switch changes nothing.

A function that reads the clock has a sibling whose name ends in `_at` and takes the time as
an argument.

`app/` is the program around the library: configuration file, sockets, journal file and the
main loop.
