# event_forwarder

The core of a chat server that reads numbered events from an _event source_
and forwards them to the user clients that must receive them.

`src/` is the verified library:

- `sequenced_queue` (and its variant in `misc`): a queue that hands out
  events strictly in order of their ids, waiting for missing ones.
- `user`, `server`: the users (followers, black lists, messages kept for
  users that are not connected) and the connected clients.
- `clients_processing`: applying an event to the users and deciding who gets
  its text now and who later; draining the queue; reading the number of users;
  the decisions of the loop that forwards messages to one client.
- `number`: decimal numbers as the clients and the event source send them.
- `event`: the events.

`app/` holds the server program around it: sockets, channels, the async tasks
and the event line format, which comes from the `chat_app` crate.
