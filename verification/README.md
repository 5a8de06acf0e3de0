# Subscription governor

`subgov` watches the quota windows of subscription accounts, learns how fast workers burn them, and
steers each account's fleet so that its quota lasts until the reset.

The library in `src/` is verified with Verus; `app/` is the program around it, which does the input
and output.

| module | what it holds |
| --- | --- |
| `config` | the configuration, its validation, and the policy of each window |
| `controller` | the decision: how many workers an account should run |
| `pacing` | the arithmetic of that decision |
| `cycle`, `state` | one round over the accounts, and what is kept of it |
| `source` | what is asked of a provider, and what its replies mean |
| `fleet` | reading how many workers run, and saying how many should |
| `json`, `timestamp`, `double`, `paths`, `name_map`, `text` | the values that the others speak of |

A fraction of a quota is a double-precision number, held by its bits. Its order, differences and
quotients are those of IEEE 754, worked out in integers and proved against their definition.

The properties that span functions are the public proof functions whose names begin with `law_`.

The defaults of an `anthropic_oauth` source depend on the product that it reads: give its name with
`--product`, or set `credentials_path` and `token_url`.
