# Secure P2P chat

The library behind a chat between two peers that talk directly, over HTTP, with no server between
them. Everything that is said is encrypted end to end.

The library holds no connection. A peer (`peer::PeerNode`) takes what came over the network and
says what is to be sent; the program under `app/` does the sending.

| Module | What it holds |
| --- | --- |
| `crypto` | keys, sealed payloads, the handshake, the double ratchet, safety numbers |
| `crypto::primitives` | the calls into the crates that do the cryptography, and what is taken for granted of them |
| `crypto::conversation` | what keeps two ratchets in step, and that messages sent are read, in any order |
| `crypto::replay` | that no message is read twice, whatever comes between |
| `net` | the URLs under which a peer may be reached, and the STUN query for its public address |
| `peer` | a peer: connecting, sending, the mailbox for a peer that cannot be dialed, verified contacts |
| `peer::sessions` | the sessions that handshakes with the other peer agreed on |
| `peer::laws` | what holds of one peer |
| `peer::delivery` | what holds between two peers: handshakes, texts, whole mailboxes |
| `text` | decimal numbers, trimming, UTF-8 |

## Protocol

- `GET /identity`: the public key of the peer.
- `POST /handshake`: an offer, answered by a proof that the other holds its key.
- `POST /message`: one encrypted message.
- `POST /pull`: what waits in the mailbox, for the peer of the session.
- `GET /health`.

A peer has a session with one other peer at a time. The two may shake hands again, and that takes
nothing away: what was sealed under the earlier keys can still be read, and the peer that answers
goes on under them until a message or a pull shows that the other holds the new ones. On first contact the key of the other peer is
taken on trust; the two users compare the safety number, over some other channel, to make sure.

## What is proved

Each function states what it computes for every input. The functions whose names begin with `law_`
state what holds of several functions together, such as that the two sides of a handshake end with
ratchets in step, that a text sent by one of two linked peers arrives at the other, and that a whole
mailbox does, also over a handshake. What the
ciphers, the hash and the curve compute has a name and is not proved; what the library rests on is
stated where the calls are made.

Whether the counts of a chain have room is for the caller to ask (`can_send_text`,
`can_accept_message`): they run to 32 bits. `receive_pulled` asks for itself, and says how many
messages it took.
