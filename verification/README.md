# himqtt

The decision logic of the HiMQTT broker (an MQTT server built on rumqttd),
written in Verus and proved against its contracts.

`src/` is the verified library:

- `matcher`: ACL pattern and registered-topic matching (publish matching goes through `rumqttd::protocol::matches`).
- `acl`: the ACL cache (accounts, registered topics, rules per user), the ACL check and the password checks.
- `password`: bcrypt hashing and verification behind two trusted wrappers.
- `auth`: console sessions, bearer and query tokens, login, logout.
- `defaults`: `{username}` templates of the topics and rules given to new users.
- `admin`: console settings and the batch account import parser.
- `monitor`: the message monitor (ring of recent messages, per-topic counts, statistics, listings).
- `system`: which disk the system snapshot reports.
- `settings`: the `[acl]` section of the configuration.
- `text`, `words`, `sort`: verified character-sequence helpers and a stable sort.

`app/` is the program around it: configuration loading, the PostgreSQL
queries, the axum console, the broker threads and the system sampling.
